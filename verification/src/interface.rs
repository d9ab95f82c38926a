//! Decisions of the user interface: which audio devices are offered for
//! selection, how the interface state answers each message, and what the
//! frequency detection loop does after each device request.

use vstd::prelude::*;

verus! {

/// The driver-name prefix of the hardware input devices offered for selection.
pub open spec fn hardware_prefix() -> Seq<char> {
    seq!['p', 'l', 'u', 'g', 'h', 'w', ':']
}

/// Whether a driver name begins with the hardware prefix.
pub open spec fn is_hardware_driver(driver: Seq<char>) -> bool {
    driver.len() >= hardware_prefix().len() && driver.subrange(0, hardware_prefix().len() as int)
        == hardware_prefix()
}

/// Whether `driver` names a hardware input (`plughw:`) device.
pub fn is_plughw_driver(driver: &str) -> (hardware: bool)
    ensures
        hardware == is_hardware_driver(driver@),
{
    let prefix = ['p', 'l', 'u', 'g', 'h', 'w', ':'];
    let len = driver.unicode_len();
    if len < 7 {
        return false;
    }
    let mut i: usize = 0;
    while i < 7
        invariant
            len == driver@.len(),
            len >= 7,
            i <= 7,
            prefix@ == hardware_prefix(),
            forall|j: int| 0 <= j < i ==> driver@[j] == hardware_prefix()[j],
        decreases 7 - i,
    {
        if driver.get_char(i) != prefix[i] {
            assert(driver@.subrange(0, 7)[i as int] != hardware_prefix()[i as int]);
            return false;
        }
        i = i + 1;
    }
    assert(driver@.subrange(0, 7) =~= hardware_prefix());
    true
}

/// A device as enumerated from the audio host: its driver name and identifier,
/// when the host could tell them, and its name.
pub struct DeviceCandidate<I> {
    pub driver: Option<String>,
    pub id: Option<I>,
    pub name: String,
}

/// An input device offered for selection: its identifier and its name.
#[derive(Clone, Debug)]
pub struct DeviceRepresentation<I> {
    id: I,
    name: String,
}

impl<I> DeviceRepresentation<I> {
    /// The identifier of the device.
    pub closed spec fn spec_id(self) -> I {
        self.id
    }

    /// The name of the device.
    pub closed spec fn spec_name(self) -> Seq<char> {
        self.name@
    }

    /// The device with identifier `id` shown as `name`.
    pub fn new(id: I, name: String) -> (device: DeviceRepresentation<I>)
        ensures
            device.spec_id() == id,
            device.spec_name() == name@,
    {
        DeviceRepresentation { id, name }
    }

    /// The name under which the device is shown.
    pub fn name(&self) -> (name: &str)
        ensures
            name@ == self.spec_name(),
    {
        self.name.as_str()
    }

    /// The identifier of the device.
    pub fn id(&self) -> (id: &I)
        ensures
            *id == self.spec_id(),
    {
        &self.id
    }
}

/// Whether a candidate is offered: its driver is known and is a hardware
/// input driver, and its identifier is known.
pub open spec fn is_offered<I>(candidate: DeviceCandidate<I>) -> bool {
    &&& candidate.driver matches Some(driver)
    &&& is_hardware_driver(driver@)
    &&& candidate.id is Some
}

/// The identifiers and names of the offered candidates, in the order given.
pub open spec fn offered<I>(candidates: Seq<DeviceCandidate<I>>) -> Seq<(I, Seq<char>)>
    decreases candidates.len(),
{
    if candidates.len() == 0 {
        Seq::empty()
    } else {
        let last = candidates.last();
        let before = offered(candidates.drop_last());
        if is_offered(last) {
            before.push((last.id.unwrap(), last.name@))
        } else {
            before
        }
    }
}

/// The devices offered are exactly the candidates with a known hardware
/// (`plughw:`) driver and a known identifier, each taken as its identifier and
/// name, in the order given: as many as there are such candidates, each of them
/// present, and nothing else.
pub proof fn lemma_offered_devices<I>(candidates: Seq<DeviceCandidate<I>>)
    ensures
        offered(candidates) == candidates.filter(|c: DeviceCandidate<I>| is_offered(c)).map_values(
            |c: DeviceCandidate<I>| (c.id.unwrap(), c.name@),
        ),
        offered(candidates).len() == candidates.filter(|c: DeviceCandidate<I>| is_offered(c)).len(),
        forall|i: int|
            0 <= i < candidates.len() && is_offered(#[trigger] candidates[i]) ==> offered(
                candidates,
            ).contains((candidates[i].id.unwrap(), candidates[i].name@)),
        forall|k: int|
            #![trigger offered(candidates)[k]]
            0 <= k < offered(candidates).len() ==> exists|i: int|
                0 <= i < candidates.len() && is_offered(#[trigger] candidates[i]) && offered(
                    candidates,
                )[k] == (candidates[i].id.unwrap(), candidates[i].name@),
    decreases candidates.len(),
{
    let pred = |c: DeviceCandidate<I>| is_offered(c);
    let f = |c: DeviceCandidate<I>| (c.id.unwrap(), c.name@);
    reveal(Seq::filter);
    if candidates.len() > 0 {
        let before = candidates.drop_last();
        lemma_offered_devices(before);
        if pred(candidates.last()) {
            assert(candidates.filter(pred) == before.filter(pred).push(candidates.last()));
            assert(candidates.filter(pred).map_values(f) =~= before.filter(pred).map_values(f).push(
                f(candidates.last()),
            ));
        } else {
            assert(candidates.filter(pred) == before.filter(pred));
        }
        assert(offered(candidates) == candidates.filter(pred).map_values(f));
        let out = offered(candidates);
        assert forall|i: int|
            0 <= i < candidates.len() && is_offered(#[trigger] candidates[i]) implies out.contains(
            (candidates[i].id.unwrap(), candidates[i].name@),
        ) by {
            if i == candidates.len() - 1 {
                assert(out[out.len() - 1] == f(candidates[i]));
            } else {
                assert(before[i] == candidates[i]);
                assert(offered(before).contains(f(before[i])));
                let k = choose|k: int| 0 <= k < offered(before).len() && offered(before)[k] == f(before[i]);
                assert(out[k] == offered(before)[k]);
            }
        }
        assert forall|k: int| #![trigger out[k]] 0 <= k < out.len() implies exists|i: int|
            0 <= i < candidates.len() && is_offered(#[trigger] candidates[i]) && out[k] == (
                candidates[i].id.unwrap(),
                candidates[i].name@,
            ) by {
            if k < offered(before).len() {
                assert(out[k] == offered(before)[k]);
                let i = choose|i: int|
                    0 <= i < before.len() && is_offered(#[trigger] before[i]) && offered(before)[k] == (
                        before[i].id.unwrap(),
                        before[i].name@,
                    );
                assert(candidates[i] == before[i]);
            } else {
                let i = candidates.len() - 1;
                assert(is_offered(candidates[i]));
            }
        }
    } else {
        assert(candidates.filter(pred) =~= Seq::<DeviceCandidate<I>>::empty());
        assert(candidates.filter(pred).map_values(f) =~= Seq::<(I, Seq<char>)>::empty());
    }
}

/// A driver name is a hardware input driver exactly when its first seven
/// characters are `p`, `l`, `u`, `g`, `h`, `w`, `:`.
pub proof fn lemma_hardware_driver(driver: Seq<char>)
    ensures
        is_hardware_driver(driver) <==> driver.len() >= 7 && driver[0] == 'p' && driver[1] == 'l'
            && driver[2] == 'u' && driver[3] == 'g' && driver[4] == 'h' && driver[5] == 'w'
            && driver[6] == ':',
{
    if driver.len() >= 7 && driver[0] == 'p' && driver[1] == 'l' && driver[2] == 'u' && driver[3]
        == 'g' && driver[4] == 'h' && driver[5] == 'w' && driver[6] == ':' {
        assert(driver.subrange(0, 7) =~= hardware_prefix());
    }
    if is_hardware_driver(driver) {
        assert(driver.subrange(0, 7)[0] == 'p');
        assert(driver.subrange(0, 7)[6] == ':');
    }
}

/// Keep the hardware input devices among the candidates, in order.
pub fn select_input_devices<I>(candidates: Vec<DeviceCandidate<I>>) -> (devices: Vec<DeviceRepresentation<I>>)
    ensures
        devices@.len() == offered(candidates@).len(),
        forall|k: int|
            0 <= k < devices@.len() ==> (#[trigger] devices@[k]).spec_id() == offered(
                candidates@,
            )[k].0 && devices@[k].spec_name() == offered(candidates@)[k].1,
{
    let ghost all = candidates@;
    let mut devices: Vec<DeviceRepresentation<I>> = Vec::new();
    let mut rest = candidates;
    let mut taken: Vec<DeviceCandidate<I>> = Vec::new();
    // Reverse the candidates so that popping yields them in their original order.
    while rest.len() > 0
        invariant
            rest@ + taken@.reverse() == all,
        decreases rest.len(),
    {
        let c = rest.pop().unwrap();
        proof {
            assert(rest@ + taken@.push(c).reverse() =~= all);
        }
        taken.push(c);
    }
    proof {
        assert(taken@.reverse() =~= all);
    }
    let ghost n = all.len();
    while taken.len() > 0
        invariant
            taken@.reverse() == all.subrange(n - taken@.len(), n as int),
            n == all.len(),
            taken@.len() <= n,
            devices@.len() == offered(all.subrange(0, n - taken@.len())).len(),
            forall|k: int|
                0 <= k < devices@.len() ==> (#[trigger] devices@[k]).spec_id() == offered(
                    all.subrange(0, n - taken@.len()),
                )[k].0 && devices@[k].spec_name() == offered(all.subrange(0, n - taken@.len()))[k].1,
        decreases taken.len(),
    {
        let ghost before = all.subrange(0, n - taken@.len());
        let ghost old_taken = taken@;
        let c = taken.pop().unwrap();
        let ghost now = all.subrange(0, n - taken@.len());
        proof {
            assert(now.drop_last() =~= before);
            assert(now.last() == c) by {
                assert(all.subrange(n - taken@.len() - 1, n as int)[0] == c);
            }
            assert(old_taken =~= taken@.push(c));
            assert(old_taken.reverse() =~= seq![c] + taken@.reverse());
            assert(taken@.reverse() =~= old_taken.reverse().subrange(1, old_taken.len() as int));
            assert(taken@.reverse() =~= all.subrange(n - taken@.len(), n as int));
        }
        let DeviceCandidate { driver, id, name } = c;
        let mut keep = false;
        if let Some(d) = &driver {
            keep = is_plughw_driver(d.as_str());
        }
        if keep {
            if let Some(id) = id {
                devices.push(DeviceRepresentation::new(id, name));
            }
        }
    }
    proof {
        assert(all.subrange(0, n as int) =~= all);
    }
    devices
}

/// A message to the interface, carrying a frequency of type `F`, a device of
/// type `D`, or a sender of type `S` towards the detection loop.
#[derive(Clone, Debug)]
pub enum Message<F, D, S> {
    FrequencyChange(F),
    GetInputDevices,
    SubscriptionSetup(S),
    InputDeviceChanged(D),
}

/// What the interface asks of its surroundings after answering a message.
#[derive(Clone, Debug)]
pub enum Command<D> {
    /// Nothing to do.
    Nothing,
    /// Enumerate the input devices again and store them.
    RefreshInputDevices,
    /// Hand the device to the detection loop through the stored sender.
    SendDevice(D),
}

/// The interface state: the devices offered, the device chosen, the sender
/// towards the detection loop once it is set up, and the last frequency.
pub struct State<F, D, S> {
    pub input_devices: Vec<D>,
    pub device: Option<D>,
    pub device_sender: Option<S>,
    pub frequency: F,
}

impl<F, D: Clone, S> State<F, D, S> {
    /// No devices known or chosen, no sender yet, and the given frequency.
    pub fn new(frequency: F) -> (state: State<F, D, S>)
        ensures
            state.input_devices@.len() == 0,
            state.device is None,
            state.device_sender is None,
            state.frequency == frequency,
    {
        State { input_devices: Vec::new(), device: None, device_sender: None, frequency }
    }

    /// Replace the devices offered.
    pub fn set_input_devices(&mut self, devices: Vec<D>)
        ensures
            final(self).input_devices == devices,
            final(self).device == old(self).device,
            final(self).device_sender == old(self).device_sender,
            final(self).frequency == old(self).frequency,
    {
        self.input_devices = devices;
    }

    /// Answer a message: a new frequency is stored; a request for the devices
    /// asks for them to be enumerated; the sender towards the detection loop is
    /// stored; a chosen device is stored and, when the sender is set, handed to
    /// the detection loop.
    pub fn update(&mut self, message: Message<F, D, S>) -> (command: Command<D>)
        ensures
            final(self).input_devices == old(self).input_devices,
            match message {
                Message::FrequencyChange(frequency) => {
                    &&& final(self).frequency == frequency
                    &&& final(self).device == old(self).device
                    &&& final(self).device_sender == old(self).device_sender
                    &&& command is Nothing
                },
                Message::GetInputDevices => {
                    &&& final(self).frequency == old(self).frequency
                    &&& final(self).device == old(self).device
                    &&& final(self).device_sender == old(self).device_sender
                    &&& command is RefreshInputDevices
                },
                Message::SubscriptionSetup(sender) => {
                    &&& final(self).frequency == old(self).frequency
                    &&& final(self).device == old(self).device
                    &&& final(self).device_sender == Some(sender)
                    &&& command is Nothing
                },
                Message::InputDeviceChanged(device) => {
                    &&& final(self).frequency == old(self).frequency
                    &&& final(self).device_sender == old(self).device_sender
                    &&& final(self).device matches Some(stored) && cloned(device, stored)
                    &&& if old(self).device_sender is Some {
                        command == Command::SendDevice(device)
                    } else {
                        command is Nothing
                    }
                },
            },
    {
        match message {
            Message::FrequencyChange(frequency) => {
                self.frequency = frequency;
                Command::Nothing
            },
            Message::GetInputDevices => Command::RefreshInputDevices,
            Message::SubscriptionSetup(sender) => {
                self.device_sender = Some(sender);
                Command::Nothing
            },
            Message::InputDeviceChanged(device) => {
                self.device = Some(device.clone());
                if self.device_sender.is_some() {
                    Command::SendDevice(device)
                } else {
                    Command::Nothing
                }
            },
        }
    }
}

/// What the detection loop learned in one round about a requested device.
pub enum DeviceRequest<H> {
    /// No device was requested.
    NoRequest,
    /// A device was requested but could not be found.
    DeviceMissing,
    /// A detector was started on the requested device; `None` when starting failed.
    Started(Option<H>),
}

/// What the detection loop does next.
#[derive(Clone, Copy, Debug, PartialEq, Eq, Structural)]
pub enum LoopStep {
    /// Go straight to the next round.
    Retry,
    /// Wait, with no frequency to report.
    Wait,
    /// Wait, then report the frequency of the running detector if it has
    /// detected a pitch since the last report.
    WaitAndReport,
}

/// The decisions of successive calls of [`DetectionLoop::new_detection`] with
/// the detection counts `counts`, starting with `reported` detections reported.
pub open spec fn report_decisions(reported: u64, counts: Seq<u64>) -> Seq<bool>
    decreases counts.len(),
{
    if counts.len() == 0 {
        Seq::empty()
    } else {
        seq![counts[0] != reported] + report_decisions(counts[0], counts.drop_first())
    }
}

/// Over successive rounds, a frequency is reported exactly when the detection
/// count changed since the previous round (the first round compares with the
/// count already reported), that is when a pitch was detected in between.
pub proof fn lemma_reports_over_rounds(reported: u64, counts: Seq<u64>)
    ensures
        report_decisions(reported, counts).len() == counts.len(),
        forall|i: int|
            0 <= i < counts.len() ==> #[trigger] report_decisions(reported, counts)[i] == (counts[i]
                != if i == 0 {
                reported
            } else {
                counts[i - 1]
            }),
    decreases counts.len(),
{
    if counts.len() > 0 {
        let rest = counts.drop_first();
        lemma_reports_over_rounds(counts[0], rest);
        assert forall|i: int| 0 <= i < counts.len() implies #[trigger] report_decisions(
            reported,
            counts,
        )[i] == (counts[i] != if i == 0 {
            reported
        } else {
            counts[i - 1]
        }) by {
            if i > 0 {
                assert(report_decisions(reported, counts)[i] == report_decisions(counts[0], rest)[i - 1]);
                if i > 1 {
                    assert(rest[i - 2] == counts[i - 1]);
                }
            }
        }
    }
}

/// The state of the detection loop: the running detector, if any, and how
/// many of its detections the loop has already reported.
pub struct DetectionLoop<H> {
    pub handle: Option<H>,
    pub reported: u64,
}

impl<H> DetectionLoop<H> {
    /// No detector running and nothing reported.
    pub fn new() -> (detection: DetectionLoop<H>)
        ensures
            detection.handle is None,
            detection.reported == 0,
    {
        DetectionLoop { handle: None, reported: 0 }
    }

    /// One round of the detection loop: a started detector (or the failure to
    /// start one) replaces the running one, which has reported nothing yet; a
    /// missing device leaves everything as it is and skips the wait; otherwise
    /// the loop waits, then looks for a new detection when a detector runs.
    pub fn step(&mut self, request: DeviceRequest<H>) -> (step: LoopStep)
        ensures
            match request {
                DeviceRequest::DeviceMissing => {
                    &&& final(self).handle == old(self).handle
                    &&& final(self).reported == old(self).reported
                    &&& step == LoopStep::Retry
                },
                DeviceRequest::Started(started) => {
                    &&& final(self).handle == started
                    &&& final(self).reported == 0
                },
                DeviceRequest::NoRequest => {
                    &&& final(self).handle == old(self).handle
                    &&& final(self).reported == old(self).reported
                },
            },
            !(request is DeviceMissing) ==> step == if final(self).handle is Some {
                LoopStep::WaitAndReport
            } else {
                LoopStep::Wait
            },
    {
        match request {
            DeviceRequest::DeviceMissing => {
                return LoopStep::Retry;
            },
            DeviceRequest::Started(started) => {
                self.handle = started;
                self.reported = 0;
            },
            DeviceRequest::NoRequest => {},
        }
        if self.handle.is_some() {
            LoopStep::WaitAndReport
        } else {
            LoopStep::Wait
        }
    }

    /// Given how many pitches the running detector has detected so far, whether
    /// there is a detection not yet reported; the count is then taken as reported.
    /// The frequency is sent only in that case, that is when a pitch is detected.
    pub fn new_detection(&mut self, detections: u64) -> (report: bool)
        ensures
            report == (detections != old(self).reported),
            seq![report] == report_decisions(old(self).reported, seq![detections]),
            final(self).reported == detections,
            final(self).handle == old(self).handle,
    {
        let report = detections != self.reported;
        proof {
            let one = seq![detections];
            assert(one.drop_first() =~= Seq::<u64>::empty());
            assert(report_decisions(detections, Seq::<u64>::empty()) =~= Seq::<bool>::empty());
            assert(report_decisions(self.reported, one) == seq![report] + report_decisions(
                detections,
                one.drop_first(),
            ));
            assert(seq![report] + Seq::<bool>::empty() =~= seq![report]);
        }
        self.reported = detections;
        report
    }
}

} // verus!
