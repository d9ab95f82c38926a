use autotune_rs::interface::DetectionLoop;
use autotune_rs::interface::is_plughw_driver;
use autotune_rs::interface::select_input_devices;
use autotune_rs::interface::Command;
use autotune_rs::interface::DeviceCandidate;
use autotune_rs::interface::DeviceRepresentation;
use autotune_rs::interface::DeviceRequest;
use autotune_rs::interface::LoopStep;
use autotune_rs::interface::Message;
use autotune_rs::interface::State;

#[test]
fn hardware_drivers() {
    assert!(is_plughw_driver("plughw:CARD=PCH,DEV=0"));
    assert!(is_plughw_driver("plughw:"));
    assert!(!is_plughw_driver("plughw"));
    assert!(!is_plughw_driver("hw:CARD=PCH"));
    assert!(!is_plughw_driver("pulse"));
    assert!(!is_plughw_driver(""));
    assert!(!is_plughw_driver("PLUGHW:1"));
}

fn candidate(driver: Option<&str>, id: Option<u32>, name: &str) -> DeviceCandidate<u32> {
    DeviceCandidate {
        driver: driver.map(|d| d.to_string()),
        id,
        name: name.to_string(),
    }
}

#[test]
fn only_hardware_devices_with_known_ids_are_offered() {
    let candidates = vec![
        candidate(Some("plughw:CARD=PCH"), Some(1), "Built-in"),
        candidate(Some("pulse"), Some(2), "PulseAudio"),
        candidate(None, Some(3), "Unknown"),
        candidate(Some("plughw:CARD=USB"), None, "No id"),
        candidate(Some("plughw:CARD=USB,DEV=1"), Some(5), "USB mic"),
    ];
    let devices = select_input_devices(candidates);
    assert_eq!(devices.len(), 2);
    assert_eq!(*devices[0].id(), 1);
    assert_eq!(devices[0].name(), "Built-in");
    assert_eq!(*devices[1].id(), 5);
    assert_eq!(devices[1].name(), "USB mic");
}

#[test]
fn device_representation_accessors() {
    let device = DeviceRepresentation::new(7u8, "Mic".to_string());
    assert_eq!(*device.id(), 7);
    assert_eq!(device.name(), "Mic");
}

#[test]
fn interface_updates() {
    let mut state: State<f64, String, u8> = State::new(0.0);
    assert!(state.input_devices.is_empty());
    assert!(matches!(state.update(Message::FrequencyChange(440.0)), Command::Nothing));
    assert_eq!(state.frequency, 440.0);
    assert!(matches!(state.update(Message::GetInputDevices), Command::RefreshInputDevices));
    state.set_input_devices(vec!["a".to_string(), "b".to_string()]);
    assert_eq!(state.input_devices.len(), 2);
    // no sender yet: the device is stored but not sent
    assert!(matches!(
        state.update(Message::InputDeviceChanged("a".to_string())),
        Command::Nothing
    ));
    assert_eq!(state.device.as_deref(), Some("a"));
    assert!(matches!(state.update(Message::SubscriptionSetup(9)), Command::Nothing));
    assert_eq!(state.device_sender, Some(9));
    match state.update(Message::InputDeviceChanged("b".to_string())) {
        Command::SendDevice(device) => assert_eq!(device, "b"),
        _ => panic!("the chosen device is handed to the detection loop"),
    }
    assert_eq!(state.device.as_deref(), Some("b"));
    assert_eq!(state.frequency, 440.0);
}

#[test]
fn detection_loop_rounds() {
    let mut detection: DetectionLoop<u32> = DetectionLoop::new();
    assert_eq!(detection.step(DeviceRequest::NoRequest), LoopStep::Wait);
    assert_eq!(detection.step(DeviceRequest::Started(Some(1))), LoopStep::WaitAndReport);
    assert_eq!(detection.handle, Some(1));
    // no pitch detected yet: nothing to report
    assert!(!detection.new_detection(0));
    assert!(detection.new_detection(1));
    assert!(!detection.new_detection(1));
    assert!(detection.new_detection(3));
    assert_eq!(detection.step(DeviceRequest::DeviceMissing), LoopStep::Retry);
    assert_eq!(detection.handle, Some(1));
    assert_eq!(detection.reported, 3);
    assert_eq!(detection.step(DeviceRequest::NoRequest), LoopStep::WaitAndReport);
    // a new detector has reported nothing
    assert_eq!(detection.step(DeviceRequest::Started(Some(2))), LoopStep::WaitAndReport);
    assert_eq!(detection.reported, 0);
    assert!(detection.new_detection(1));
    assert_eq!(detection.step(DeviceRequest::Started(None)), LoopStep::Wait);
    assert_eq!(detection.handle, None);
}
