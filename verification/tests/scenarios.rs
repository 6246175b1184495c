use screech::modules::Dummy;
use screech::{Module, PatchPoint, Patchbay, Processor, Sample, Signal};

const SAMPLE_RATE: usize = 48_000;

fn s(x: f32) -> Sample {
    Sample::new(x.to_bits())
}

fn f(x: Sample) -> f32 {
    f32::from_bits(x.bits)
}

struct Constant {
    value: f32,
    output: PatchPoint,
}

impl<const SAMPLE_RATE: usize> Module<SAMPLE_RATE> for Constant {
    fn is_ready<const P: usize>(&self, _patchbay: &Patchbay<P>) -> bool {
        true
    }

    fn process<const P: usize>(&mut self, patchbay: &mut Patchbay<P>) {
        patchbay.set(&mut self.output, s(self.value));
    }
}

struct Divide {
    value: f32,
    input: Signal,
    output: PatchPoint,
}

impl<const SAMPLE_RATE: usize> Module<SAMPLE_RATE> for Divide {
    fn is_ready<const P: usize>(&self, patchbay: &Patchbay<P>) -> bool {
        patchbay.check(self.input)
    }

    fn process<const P: usize>(&mut self, patchbay: &mut Patchbay<P>) {
        let v = f(patchbay.get(self.input)) / self.value;
        patchbay.set(&mut self.output, s(v));
    }
}

/// Saw oscillator ramping from -0.5 to +0.5, one step of `freq / SAMPLE_RATE`
/// per sample, emitting the phase before stepping it.
struct Saw {
    phase: f32,
    freq: f32,
    output: PatchPoint,
}

impl<const SAMPLE_RATE: usize> Module<SAMPLE_RATE> for Saw {
    fn is_ready<const P: usize>(&self, _patchbay: &Patchbay<P>) -> bool {
        true
    }

    fn process<const P: usize>(&mut self, patchbay: &mut Patchbay<P>) {
        patchbay.set(&mut self.output, s(self.phase));
        self.phase += self.freq / SAMPLE_RATE as f32;
        if self.phase > 0.5 {
            self.phase -= 1.0;
        }
    }
}

/// Module that reports ready but writes nothing.
struct Mute;

impl<const SAMPLE_RATE: usize> Module<SAMPLE_RATE> for Mute {
    fn is_ready<const P: usize>(&self, _patchbay: &Patchbay<P>) -> bool {
        true
    }

    fn process<const P: usize>(&mut self, _patchbay: &mut Patchbay<P>) {}
}

/// Module that never reports ready; counts how often it is processed anyway.
struct Stubborn {
    count: u32,
    output: PatchPoint,
}

impl<const SAMPLE_RATE: usize> Module<SAMPLE_RATE> for Stubborn {
    fn is_ready<const P: usize>(&self, _patchbay: &Patchbay<P>) -> bool {
        false
    }

    fn process<const P: usize>(&mut self, patchbay: &mut Patchbay<P>) {
        self.count += 1;
        patchbay.set(&mut self.output, s(self.count as f32));
    }
}

enum Modules {
    Constant(Constant),
    Divide(Divide),
    Saw(Saw),
    Mute(Mute),
    Stubborn(Stubborn),
}

impl<const SAMPLE_RATE: usize> Module<SAMPLE_RATE> for Modules {
    fn is_ready<const P: usize>(&self, patchbay: &Patchbay<P>) -> bool {
        match self {
            Modules::Constant(m) => Module::<SAMPLE_RATE>::is_ready(m, patchbay),
            Modules::Divide(m) => Module::<SAMPLE_RATE>::is_ready(m, patchbay),
            Modules::Saw(m) => Module::<SAMPLE_RATE>::is_ready(m, patchbay),
            Modules::Mute(m) => Module::<SAMPLE_RATE>::is_ready(m, patchbay),
            Modules::Stubborn(m) => Module::<SAMPLE_RATE>::is_ready(m, patchbay),
        }
    }

    fn process<const P: usize>(&mut self, patchbay: &mut Patchbay<P>) {
        match self {
            Modules::Constant(m) => Module::<SAMPLE_RATE>::process(m, patchbay),
            Modules::Divide(m) => Module::<SAMPLE_RATE>::process(m, patchbay),
            Modules::Saw(m) => Module::<SAMPLE_RATE>::process(m, patchbay),
            Modules::Mute(m) => Module::<SAMPLE_RATE>::process(m, patchbay),
            Modules::Stubborn(m) => Module::<SAMPLE_RATE>::process(m, patchbay),
        }
    }
}

#[test]
fn constant_through_dividers_in_any_insertion_order() {
    let mut patchbay: Patchbay<32> = Patchbay::new();

    let c_point = patchbay.point().unwrap();
    let c_sig = c_point.signal();
    let d2_point = patchbay.point().unwrap();
    let d2_sig = d2_point.signal();
    let d4_point = patchbay.point().unwrap();
    let d4_sig = d4_point.signal();

    let mut processor: Processor<SAMPLE_RATE, 8, Modules> = Processor::empty();
    processor
        .insert_module(Modules::Divide(Divide {
            value: 2.0,
            input: c_sig,
            output: d2_point,
        }))
        .unwrap();
    processor
        .insert_module(Modules::Divide(Divide {
            value: 4.0,
            input: c_sig,
            output: d4_point,
        }))
        .unwrap();
    processor
        .insert_module(Modules::Constant(Constant {
            value: 0.8,
            output: c_point,
        }))
        .unwrap();

    processor.process_modules(&mut patchbay);

    assert_eq!(f(patchbay.get(c_sig)), 0.8);
    assert_eq!(f(patchbay.get(d4_sig)), 0.2);
    assert_eq!(f(patchbay.get(d2_sig)), 0.4);
}

#[test]
fn chain_in_reverse_insertion_order_and_cached_second_tick() {
    let mut patchbay: Patchbay<16> = Patchbay::new();

    let c_point = patchbay.point().unwrap();
    let c_sig = c_point.signal();
    let d1_point = patchbay.point().unwrap();
    let d1_sig = d1_point.signal();
    let d2_point = patchbay.point().unwrap();
    let d2_sig = d2_point.signal();

    let mut processor: Processor<SAMPLE_RATE, 3, Modules> = Processor::empty();
    processor
        .insert_module(Modules::Divide(Divide {
            value: 2.0,
            input: d1_sig,
            output: d2_point,
        }))
        .unwrap();
    processor
        .insert_module(Modules::Divide(Divide {
            value: 4.0,
            input: c_sig,
            output: d1_point,
        }))
        .unwrap();
    processor
        .insert_module(Modules::Constant(Constant {
            value: 0.8,
            output: c_point,
        }))
        .unwrap();

    processor.process_modules(&mut patchbay);
    assert_eq!(f(patchbay.get(d2_sig)), 0.1);

    processor.process_modules(&mut patchbay);
    assert_eq!(f(patchbay.get(d2_sig)), 0.1);
}

#[test]
fn saw_oscillator_ramps_and_wraps() {
    let mut patchbay: Patchbay<1> = Patchbay::new();
    let point = patchbay.point().unwrap();
    let sig = point.signal();

    let mut processor: Processor<4, 1, Saw> = Processor::new(vec![Some(Saw {
        phase: 0.0,
        freq: 1.0,
        output: point,
    })]);

    let expected = [0.0, 0.25, 0.5, -0.25, 0.0, 0.25, 0.5, -0.25];
    for &e in expected.iter() {
        processor.process_modules(&mut patchbay);
        assert_eq!(f(patchbay.get(sig)), e);
    }
}

#[test]
fn replacing_a_module_invalidates_the_cache_and_reorders() {
    let mut patchbay: Patchbay<16> = Patchbay::new();

    let c_point = patchbay.point().unwrap();
    let c_sig = c_point.signal();
    let d1_point = patchbay.point().unwrap();
    let d1_sig = d1_point.signal();
    let d2_point = patchbay.point().unwrap();
    let d2_sig = d2_point.signal();

    let mut processor: Processor<SAMPLE_RATE, 3, Modules> = Processor::empty();
    processor
        .insert_module(Modules::Divide(Divide {
            value: 2.0,
            input: d1_sig,
            output: d2_point,
        }))
        .unwrap();
    processor
        .insert_module(Modules::Divide(Divide {
            value: 4.0,
            input: c_sig,
            output: d1_point,
        }))
        .unwrap();
    let c_id = processor
        .insert_module(Modules::Constant(Constant {
            value: 0.8,
            output: c_point,
        }))
        .unwrap();

    processor.process_modules(&mut patchbay);
    assert_eq!(f(patchbay.get(d2_sig)), 0.1);

    // Take the old constant's patch point over into the replacement, then
    // replace the module; the replace must clear the order cache.
    let slot = processor.get_module_mut(c_id).unwrap();
    let old = std::mem::replace(slot, Modules::Mute(Mute));
    let point = match old {
        Modules::Constant(c) => c.output,
        _ => panic!("expected the constant"),
    };
    processor.replace_module(
        Modules::Constant(Constant {
            value: 0.4,
            output: point,
        }),
        c_id,
    );

    processor.process_modules(&mut patchbay);
    assert_eq!(f(patchbay.get(d2_sig)), 0.05);
}

#[test]
fn empty_processor_is_a_no_op() {
    let mut patchbay: Patchbay<2> = Patchbay::new();
    let mut point = patchbay.point().unwrap();
    let sig = point.signal();
    patchbay.set(&mut point, s(0.3));

    let mut processor: Processor<SAMPLE_RATE, 0, Dummy> = Processor::empty();
    assert_eq!(processor.insert_module(Dummy), None);
    processor.process_modules(&mut patchbay);
    processor.process_modules(&mut patchbay);
    assert_eq!(f(patchbay.get(sig)), 0.3);
}

#[test]
fn never_ready_module_still_runs_once_per_tick() {
    let mut patchbay: Patchbay<1> = Patchbay::new();
    let point = patchbay.point().unwrap();
    let sig = point.signal();

    let mut processor: Processor<SAMPLE_RATE, 1, Modules> = Processor::empty();
    processor
        .insert_module(Modules::Stubborn(Stubborn {
            count: 0,
            output: point,
        }))
        .unwrap();

    processor.process_modules(&mut patchbay);
    processor.process_modules(&mut patchbay);
    processor.process_modules(&mut patchbay);
    assert_eq!(f(patchbay.get(sig)), 3.0);
}

#[test]
fn module_that_writes_nothing_leaves_its_point_stale() {
    let mut patchbay: Patchbay<4> = Patchbay::new();
    let mute_point = patchbay.point().unwrap();
    let mute_sig = mute_point.signal();
    let c_point = patchbay.point().unwrap();
    let c_sig = c_point.signal();

    let mut processor: Processor<SAMPLE_RATE, 2, Modules> = Processor::empty();
    processor.insert_module(Modules::Mute(Mute)).unwrap();
    processor
        .insert_module(Modules::Constant(Constant {
            value: 0.6,
            output: c_point,
        }))
        .unwrap();

    processor.process_modules(&mut patchbay);

    assert_eq!(f(patchbay.get(c_sig)), 0.6);
    assert!(patchbay.check(c_sig));
    assert!(!patchbay.check(mute_sig));
}

#[test]
fn ticks_are_deterministic_and_replay_bitwise() {
    let run = || -> Vec<u32> {
        let mut patchbay: Patchbay<8> = Patchbay::new();
        let saw_point = patchbay.point().unwrap();
        let saw_sig = saw_point.signal();
        let d_point = patchbay.point().unwrap();
        let d_sig = d_point.signal();

        let mut processor: Processor<4, 2, Modules> = Processor::empty();
        processor
            .insert_module(Modules::Divide(Divide {
                value: 3.0,
                input: saw_sig,
                output: d_point,
            }))
            .unwrap();
        processor
            .insert_module(Modules::Saw(Saw {
                phase: 0.0,
                freq: 1.0,
                output: saw_point,
            }))
            .unwrap();

        let mut out = Vec::new();
        for _ in 0..16 {
            processor.process_modules(&mut patchbay);
            out.push(patchbay.get(d_sig).bits);
        }
        out
    };

    assert_eq!(run(), run());
}

#[test]
fn dummy_is_always_ready_and_does_nothing() {
    let mut patchbay: Patchbay<1> = Patchbay::new();
    let mut point = patchbay.point().unwrap();
    let sig = point.signal();
    patchbay.set(&mut point, s(0.7));

    let mut dummy = Dummy;
    assert!(Module::<SAMPLE_RATE>::is_ready(&dummy, &patchbay));
    Module::<SAMPLE_RATE>::process(&mut dummy, &mut patchbay);
    assert_eq!(f(patchbay.get(sig)), 0.7);
}

#[test]
fn clear_cache_forces_rediscovery_with_the_same_result() {
    let mut patchbay: Patchbay<8> = Patchbay::new();
    let c_point = patchbay.point().unwrap();
    let c_sig = c_point.signal();
    let d_point = patchbay.point().unwrap();
    let d_sig = d_point.signal();

    let mut processor: Processor<SAMPLE_RATE, 2, Modules> = Processor::empty();
    processor
        .insert_module(Modules::Divide(Divide {
            value: 2.0,
            input: c_sig,
            output: d_point,
        }))
        .unwrap();
    processor
        .insert_module(Modules::Constant(Constant {
            value: 0.8,
            output: c_point,
        }))
        .unwrap();

    processor.process_modules(&mut patchbay);
    assert_eq!(f(patchbay.get(d_sig)), 0.4);

    processor.clear_cache();
    processor.process_modules(&mut patchbay);
    assert_eq!(f(patchbay.get(d_sig)), 0.4);
}

#[test]
fn full_processor_rejects_further_inserts() {
    let mut processor: Processor<SAMPLE_RATE, 2, Dummy> = Processor::empty();
    assert_eq!(processor.insert_module(Dummy), Some(0));
    assert_eq!(processor.insert_module(Dummy), Some(1));
    assert_eq!(processor.insert_module(Dummy), None);
}

#[test]
fn unknown_ids_read_as_none() {
    let mut processor: Processor<SAMPLE_RATE, 4, Dummy> = Processor::empty();
    let id = processor.insert_module(Dummy).unwrap();
    assert_eq!(processor.get_module(id), Some(&Dummy));
    assert_eq!(processor.get_module(3), None);
    assert_eq!(processor.get_module_mut(3), None);
}

#[test]
fn take_and_reinsert_preserves_per_tick_outputs() {
    let build = |patchbay: &mut Patchbay<8>| -> (Processor<SAMPLE_RATE, 4, Modules>, Signal) {
        let c_point = patchbay.point().unwrap();
        let c_sig = c_point.signal();
        let d_point = patchbay.point().unwrap();
        let d_sig = d_point.signal();

        let mut processor: Processor<SAMPLE_RATE, 4, Modules> = Processor::empty();
        processor
            .insert_module(Modules::Divide(Divide {
                value: 2.0,
                input: c_sig,
                output: d_point,
            }))
            .unwrap();
        processor
            .insert_module(Modules::Constant(Constant {
                value: 0.8,
                output: c_point,
            }))
            .unwrap();
        (processor, d_sig)
    };

    let mut bay_a: Patchbay<8> = Patchbay::new();
    let (mut control, sig_a) = build(&mut bay_a);

    let mut bay_b: Patchbay<8> = Patchbay::new();
    let (mut round_trip, sig_b) = build(&mut bay_b);
    let taken = round_trip.take_modules();
    for m in taken {
        if let Some(m) = m {
            round_trip.insert_module(m).unwrap();
        }
    }

    for _ in 0..3 {
        control.process_modules(&mut bay_a);
        round_trip.process_modules(&mut bay_b);
        assert_eq!(bay_a.get(sig_a).bits, bay_b.get(sig_b).bits);
    }
}
