use vstd::prelude::*;

verus! {

/// The handler that a slot of the transition table refers to.
#[derive(Clone, Copy, Debug, PartialEq, Eq, Structural)]
pub enum Handler {
    Idle,
    Busy,
    Sleep,
    Done,
    Exit,
}

/// The states the machine can be in.
#[allow(non_camel_case_types)]
#[derive(Clone, Copy, Debug, PartialEq, Eq, Structural)]
pub enum STATES {
    STATE_IDLE,
    STATE_INIT,
    STATE_BUSY,
    STATE_SLEEP,
    STATE_DONE,
}

/// A small state machine: a table of handlers and the current and last state.
pub struct Sm {
    pub s_transitions: [[Handler; 5]; 2],
    cur_state: STATES,
    last_state: STATES,
}

/// What a handler hands back: the lines it reports and its result.
pub struct StateOutput {
    pub lines: Vec<String>,
    pub result: String,
}

/// One row of the transition table: the five handlers in order.
pub open spec fn handler_row() -> Seq<Handler> {
    seq![Handler::Idle, Handler::Busy, Handler::Sleep, Handler::Done, Handler::Exit]
}

/// A handler's report: its label, ten times.
pub open spec fn reports(out: StateOutput, label: Seq<char>) -> bool {
    &&& out.lines@.len() == 10
    &&& forall|i: int| 0 <= i < 10 ==> (#[trigger] out.lines@[i])@ == label
    &&& out.result@ == Seq::<char>::empty()
}

fn repeat_label(label: &str) -> (out: StateOutput)
    ensures
        reports(out, label@),
{
    let mut lines: Vec<String> = Vec::new();
    let mut i: usize = 0;
    while i < 10
        invariant
            i <= 10,
            lines@.len() == i,
            forall|j: int| 0 <= j < i ==> (#[trigger] lines@[j])@ == label@,
        decreases 10 - i,
    {
        lines.push(String::from_str(label));
        i = i + 1;
    }
    StateOutput { lines, result: String::new() }
}

impl Sm {
    /// The transition table, row by row.
    pub closed spec fn table(&self) -> Seq<Seq<Handler>> {
        self.s_transitions@.map_values(|row: [Handler; 5]| row@)
    }

    /// The state the machine is in.
    pub closed spec fn current(&self) -> STATES {
        self.cur_state
    }

    /// The state the machine was in before.
    pub closed spec fn previous(&self) -> STATES {
        self.last_state
    }

    /// A machine whose two table rows both hold the five handlers, idle.
    pub fn new() -> (sm: Self)
        ensures
            sm.table() == seq![handler_row(), handler_row()],
            sm.current() == STATES::STATE_IDLE,
            sm.previous() == STATES::STATE_IDLE,
    {
        let row = [Handler::Idle, Handler::Busy, Handler::Sleep, Handler::Done, Handler::Exit];
        let sm = Sm { s_transitions: [row, row], cur_state: STATES::STATE_IDLE, last_state: STATES::STATE_IDLE };
        assert(sm.s_transitions@[0]@ =~= handler_row());
        assert(sm.s_transitions@[1]@ =~= handler_row());
        assert(sm.table() =~= seq![handler_row(), handler_row()]);
        sm
    }

    /// The current state.
    pub fn cur_state(&self) -> (s: STATES)
        ensures
            s == self.current(),
    {
        self.cur_state
    }

    /// The last state.
    pub fn last_state(&self) -> (s: STATES)
        ensures
            s == self.previous(),
    {
        self.last_state
    }

    /// The idle handler: reports "Idle" ten times and hands back an empty string.
    pub fn state_idle(&mut self, param1: &mut String, param2: &mut String) -> (out: StateOutput)
        ensures
            reports(out, "Idle"@),
            *final(self) == *old(self),
            *final(param1) == *old(param1),
            *final(param2) == *old(param2),
    {
        repeat_label("Idle")
    }

    /// The busy handler: reports "Busy" ten times and hands back an empty string.
    pub fn state_busy(&mut self, param1: &mut String, param2: &mut String) -> (out: StateOutput)
        ensures
            reports(out, "Busy"@),
            *final(self) == *old(self),
            *final(param1) == *old(param1),
            *final(param2) == *old(param2),
    {
        repeat_label("Busy")
    }

    /// The sleep handler: reports "Sleep" ten times and hands back an empty string.
    pub fn state_sleep(&mut self, param1: &mut String, param2: &mut String) -> (out: StateOutput)
        ensures
            reports(out, "Sleep"@),
            *final(self) == *old(self),
            *final(param1) == *old(param1),
            *final(param2) == *old(param2),
    {
        repeat_label("Sleep")
    }

    /// The done handler: reports "Done" ten times and hands back an empty string.
    pub fn state_done(&mut self, param1: &mut String, param2: &mut String) -> (out: StateOutput)
        ensures
            reports(out, "Done"@),
            *final(self) == *old(self),
            *final(param1) == *old(param1),
            *final(param2) == *old(param2),
    {
        repeat_label("Done")
    }

    /// The exit handler: reports "Exit" ten times and hands back an empty string.
    pub fn state_exit(&mut self, param1: &mut String, param2: &mut String) -> (out: StateOutput)
        ensures
            reports(out, "Exit"@),
            *final(self) == *old(self),
            *final(param1) == *old(param1),
            *final(param2) == *old(param2),
    {
        repeat_label("Exit")
    }
}

} // verus!
