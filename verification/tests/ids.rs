use screech::{ExternalSignal, Message, PlayStyle, Sample, SignalId};

#[derive(Debug, PartialEq)]
enum MessageType {
    Midi(u8, u8, u8),
    Bang,
}

#[test]
fn message_keeps_position_and_data() {
    let message = Message::new(42, MessageType::Midi(146, 69, 128));
    assert_eq!(message.position, 42);
    assert_eq!(message.data, MessageType::Midi(146, 69, 128));

    let other = Message::new(0, MessageType::Bang);
    assert_eq!(other.position, 0);
    assert_eq!(other.data, MessageType::Bang);
}

#[test]
fn signal_id_exposes_its_parts() {
    let id = SignalId::new(7, "output");
    assert_eq!(*id.get_source_id(), 7);
    assert_eq!(id.get_signal_id(), "output");

    let copy = id;
    assert_eq!(copy, id);
}

#[test]
fn external_signal_exposes_its_parts() {
    let e = ExternalSignal::new(3, 1);
    assert_eq!(*e.get_source_id(), 3);
    assert_eq!(*e.get_signal_id(), 1);
    assert_eq!(e, ExternalSignal::new(3, 1));
    assert_ne!(e, ExternalSignal::new(3, 2));
}

#[test]
fn play_style_distinguishes_its_variants() {
    assert_eq!(PlayStyle::OneShot, PlayStyle::OneShot);
    assert_ne!(PlayStyle::OneShot, PlayStyle::Loop);
    assert_eq!(PlayStyle::Loop.clone(), PlayStyle::Loop);
}

#[test]
fn sample_carries_raw_bits() {
    let a = Sample::new(0.25f32.to_bits());
    assert_eq!(f32::from_bits(a.bits), 0.25);
    assert_eq!(Sample::silence().bits, 0);
    assert_eq!(Sample::silence(), Sample::new(0));
    assert_ne!(a, Sample::silence());
}
