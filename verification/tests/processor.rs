use screech::modules::Dummy;
use screech::{Module, PatchPoint, Patchbay, Processor, Sample, Signal};

const SAMPLE_RATE: usize = 48_000;

fn s(x: f32) -> Sample {
    Sample::new(x.to_bits())
}

fn f(x: Sample) -> f32 {
    f32::from_bits(x.bits)
}

struct Constant {
    value: f32,
    output: PatchPoint,
}

impl<const SAMPLE_RATE: usize> Module<SAMPLE_RATE> for Constant {
    fn is_ready<const P: usize>(&self, _patchbay: &Patchbay<P>) -> bool {
        true
    }

    fn process<const P: usize>(&mut self, patchbay: &mut Patchbay<P>) {
        patchbay.set(&mut self.output, s(self.value));
    }
}

struct Divide {
    value: f32,
    input: Signal,
    output: PatchPoint,
}

impl<const SAMPLE_RATE: usize> Module<SAMPLE_RATE> for Divide {
    fn is_ready<const P: usize>(&self, patchbay: &Patchbay<P>) -> bool {
        patchbay.check(self.input)
    }

    fn process<const P: usize>(&mut self, patchbay: &mut Patchbay<P>) {
        let v = f(patchbay.get(self.input)) / self.value;
        patchbay.set(&mut self.output, s(v));
    }
}

struct Add {
    x: Signal,
    y: Signal,
    output: PatchPoint,
}

impl<const SAMPLE_RATE: usize> Module<SAMPLE_RATE> for Add {
    fn is_ready<const P: usize>(&self, patchbay: &Patchbay<P>) -> bool {
        patchbay.check(self.x) && patchbay.check(self.y)
    }

    fn process<const P: usize>(&mut self, patchbay: &mut Patchbay<P>) {
        let v = f(patchbay.get(self.x)) + f(patchbay.get(self.y));
        patchbay.set(&mut self.output, s(v));
    }
}

enum Modules {
    Constant(Constant),
    Divide(Divide),
    Add(Add),
}

impl<const SAMPLE_RATE: usize> Module<SAMPLE_RATE> for Modules {
    fn is_ready<const P: usize>(&self, patchbay: &Patchbay<P>) -> bool {
        match self {
            Modules::Constant(m) => Module::<SAMPLE_RATE>::is_ready(m, patchbay),
            Modules::Divide(m) => Module::<SAMPLE_RATE>::is_ready(m, patchbay),
            Modules::Add(m) => Module::<SAMPLE_RATE>::is_ready(m, patchbay),
        }
    }

    fn process<const P: usize>(&mut self, patchbay: &mut Patchbay<P>) {
        match self {
            Modules::Constant(m) => Module::<SAMPLE_RATE>::process(m, patchbay),
            Modules::Divide(m) => Module::<SAMPLE_RATE>::process(m, patchbay),
            Modules::Add(m) => Module::<SAMPLE_RATE>::process(m, patchbay),
        }
    }
}

#[test]
fn process_should_allow_adding_modules() {
    let mut processor: Processor<SAMPLE_RATE, 4, Dummy> =
        Processor::new(vec![None, None, None, None]);

    processor.insert_module(Dummy);
    processor.insert_module(Dummy);

    assert_eq!(
        processor.take_modules(),
        vec![Some(Dummy), Some(Dummy), None, None]
    );

    processor.insert_module(Dummy);
    processor.insert_module(Dummy);
    processor.insert_module(Dummy);

    assert_eq!(
        processor.take_modules(),
        vec![Some(Dummy), Some(Dummy), Some(Dummy), None]
    );
}

#[test]
fn process_should_allow_replacing_modules() {
    let mut processor: Processor<SAMPLE_RATE, 4, Dummy> =
        Processor::new(vec![None, None, None, None]);

    processor.replace_module(Dummy, 2);

    assert_eq!(
        processor.take_modules(),
        vec![Some(Dummy), None, None, None]
    );
}

#[test]
fn process_should_allow_getting_modules() {
    let mut processor: Processor<SAMPLE_RATE, 4, Dummy> =
        Processor::new(vec![None, None, None, Some(Dummy)]);

    let id = processor.insert_module(Dummy).unwrap();
    processor.replace_module(Dummy, 2);

    assert_eq!(processor.get_module(id), Some(&Dummy));
    assert_eq!(processor.get_module_mut(2), Some(&mut Dummy));
    assert_eq!(processor.get_module_mut(3), Some(&mut Dummy));
    assert_eq!(
        processor.take_modules(),
        vec![Some(Dummy), Some(Dummy), None, Some(Dummy)]
    );
}

#[test]
fn process_should_run_process_on_modules() {
    let mut patchbay: Patchbay<1> = Patchbay::new();
    let output = patchbay.point().unwrap();
    let signal = output.signal();
    let mut processor: Processor<SAMPLE_RATE, 1, Modules> = Processor::new(vec![Some(
        Modules::Constant(Constant { value: 0.8, output }),
    )]);

    processor.process_modules(&mut patchbay);
    assert_eq!(f(patchbay.get(signal)), 0.8);
}

#[test]
fn process_should_run_modules_in_the_correct_order() {
    let mut patchbay: Patchbay<32> = Patchbay::new();

    let constant = Constant {
        value: 0.8,
        output: patchbay.point().unwrap(),
    };
    let divide1 = Divide {
        value: 4.0,
        input: constant.output.signal(),
        output: patchbay.point().unwrap(),
    };
    let divide2 = Divide {
        value: 2.0,
        input: divide1.output.signal(),
        output: patchbay.point().unwrap(),
    };

    let output = divide2.output.signal();

    let mut processor: Processor<SAMPLE_RATE, 3, Modules> = Processor::new(vec![
        Some(Modules::Divide(divide2)),
        Some(Modules::Divide(divide1)),
        Some(Modules::Constant(constant)),
    ]);

    processor.process_modules(&mut patchbay);

    assert_eq!(f(patchbay.get(output)), 0.1);
}

#[test]
fn process_should_allow_circular_connections() {
    let mut patchbay: Patchbay<3> = Patchbay::new();

    let add_output = patchbay.point().unwrap();
    let output = add_output.signal();

    let constant = Constant {
        value: 0.8,
        output: patchbay.point().unwrap(),
    };
    let divide = Divide {
        value: 2.0,
        input: output,
        output: patchbay.point().unwrap(),
    };
    let add = Add {
        x: constant.output.signal(),
        y: divide.output.signal(),
        output: add_output,
    };

    let mut processor: Processor<SAMPLE_RATE, 3, Modules> = Processor::new(vec![
        Some(Modules::Add(add)),
        Some(Modules::Constant(constant)),
        Some(Modules::Divide(divide)),
    ]);

    processor.process_modules(&mut patchbay);
    assert_eq!(f(patchbay.get(output)), 0.8);

    processor.process_modules(&mut patchbay);
    assert_eq!(f(patchbay.get(output)), 1.2);
}
