use vstd::prelude::*;
use crate::config::{Config, MAX_LEN};
use crate::entry::Entry;
use crate::rank::{catalog_fits, is_ranking, lemma_ranking_unique, qualifies, rank, ranking_of, Candidate, IndexOptions};

verus! {

/// The key of a terminal key event, as far as disambiguation tells keys apart.
#[derive(Clone, Copy, Debug, PartialEq, Eq, Structural)]
pub enum KeyCode {
    Char(char),
    Enter,
    Esc,
    Other,
}

/// A key event: which key, and whether it was pressed (as opposed to
/// released or repeated).
#[derive(Clone, Copy, Debug, PartialEq, Eq, Structural)]
pub struct KeyEvent {
    pub code: KeyCode,
    pub press: bool,
}

/// Where a disambiguation stands. `Resolved` holds the chosen handle.
#[derive(Clone, Copy, Debug, PartialEq, Eq, Structural)]
pub enum State {
    Empty,
    SingleConfirm,
    MultiSelect,
    Resolved(usize),
    Cancelled,
}

/// The state that `n` candidates start in.
pub open spec fn initial_state(n: nat) -> State {
    if n == 0 {
        State::Empty
    } else if n == 1 {
        State::SingleConfirm
    } else {
        State::MultiSelect
    }
}

/// Escape, `q`, `Q`, `n` and `N` decline.
pub open spec fn is_cancel_key(code: KeyCode) -> bool {
    code == KeyCode::Esc || code == KeyCode::Char('q') || code == KeyCode::Char('Q') || code
        == KeyCode::Char('n') || code == KeyCode::Char('N')
}

/// The menu number that a key stands for: `1` to `9` for the keys `'1'` to `'9'`.
pub open spec fn digit_of(code: KeyCode) -> Option<nat> {
    match code {
        KeyCode::Char(ch) => if '1' <= ch <= '9' {
            Some((ch as nat - '0' as nat) as nat)
        } else {
            None
        },
        _ => None,
    }
}

/// One transition. `Empty` moves to `Cancelled` whatever comes; the terminal
/// states stay; events other than presses change nothing.
pub open spec fn next_state(s: State, cands: Seq<usize>, ev: KeyEvent) -> State {
    match s {
        State::Empty => State::Cancelled,
        State::SingleConfirm => if !ev.press {
            s
        } else if is_cancel_key(ev.code) {
            State::Cancelled
        } else if ev.code == KeyCode::Char('y') || ev.code == KeyCode::Enter {
            State::Resolved(cands[0])
        } else {
            s
        },
        State::MultiSelect => if !ev.press {
            s
        } else if is_cancel_key(ev.code) {
            State::Cancelled
        } else if ev.code == KeyCode::Enter {
            State::Resolved(cands[0])
        } else if digit_of(ev.code) is Some && digit_of(ev.code)->0 <= cands.len() {
            State::Resolved(cands[digit_of(ev.code)->0 - 1])
        } else {
            s
        },
        _ => s,
    }
}

/// The state reached from `s` after the events `evs`, in order.
pub open spec fn run_events(s: State, cands: Seq<usize>, evs: Seq<KeyEvent>) -> State
    decreases evs.len(),
{
    if evs.len() == 0 {
        s
    } else {
        next_state(run_events(s, cands, evs.drop_last()), cands, evs.last())
    }
}

/// `Empty` gives way to `Cancelled` at once; every other state stays.
pub open spec fn settled(s: State) -> State {
    if s == State::Empty {
        State::Cancelled
    } else {
        s
    }
}

/// `Some` of the chosen handle, or `None` where nothing was chosen.
pub open spec fn outcome_of(s: State) -> Option<usize> {
    match s {
        State::Resolved(i) => Some(i),
        _ => None,
    }
}

/// The disambiguation of a ranked list of handles (best first).
#[derive(Clone, Debug)]
pub struct Disambiguation {
    pub candidates: Vec<usize>,
    pub state: State,
}

impl Disambiguation {
    /// The state agrees with the number of candidates, and a resolved
    /// handle is one of them.
    pub open spec fn wf(self) -> bool {
        &&& self.state == State::Empty ==> self.candidates@.len() == 0
        &&& self.state == State::SingleConfirm ==> self.candidates@.len() == 1
        &&& self.state == State::MultiSelect ==> self.candidates@.len() >= 2
        &&& self.state matches State::Resolved(i) ==> self.candidates@.contains(i)
    }

    /// Starts a disambiguation: `Empty` for no candidate, `SingleConfirm`
    /// for one, `MultiSelect` for more.
    pub fn new(candidates: Vec<usize>) -> (d: Disambiguation)
        ensures
            d.candidates@ == candidates@,
            d.state == initial_state(candidates@.len()),
            d.wf(),
    {
        let state = if candidates.len() == 0 {
            State::Empty
        } else if candidates.len() == 1 {
            State::SingleConfirm
        } else {
            State::MultiSelect
        };
        Disambiguation { candidates, state }
    }

    /// The current state waits for a key.
    pub fn awaits_key(&self) -> (r: bool)
        ensures
            r == (self.state == State::SingleConfirm || self.state == State::MultiSelect),
    {
        match self.state {
            State::SingleConfirm | State::MultiSelect => true,
            _ => false,
        }
    }

    /// Takes one event.
    pub fn handle(&mut self, ev: KeyEvent)
        requires
            old(self).wf(),
        ensures
            final(self).wf(),
            final(self).candidates@ == old(self).candidates@,
            final(self).state == next_state(old(self).state, old(self).candidates@, ev),
    {
        let n = self.candidates.len();
        let next = match self.state {
            State::Empty => State::Cancelled,
            State::SingleConfirm => {
                if !ev.press {
                    State::SingleConfirm
                } else if is_cancel(ev.code) {
                    State::Cancelled
                } else if matches!(ev.code, KeyCode::Char('y') | KeyCode::Enter) && n > 0 {
                    State::Resolved(self.candidates[0])
                } else {
                    State::SingleConfirm
                }
            },
            State::MultiSelect => {
                if !ev.press {
                    State::MultiSelect
                } else if is_cancel(ev.code) {
                    State::Cancelled
                } else if matches!(ev.code, KeyCode::Enter) && n > 0 {
                    State::Resolved(self.candidates[0])
                } else {
                    match menu_number(ev.code) {
                        Some(d) => if d <= n {
                            State::Resolved(self.candidates[d - 1])
                        } else {
                            State::MultiSelect
                        },
                        None => State::MultiSelect,
                    }
                }
            },
            other => other,
        };
        proof {
            if let State::Resolved(i) = next {
                if next != self.state {
                    if ev.code == KeyCode::Enter || ev.code == KeyCode::Char('y') {
                        assert(self.candidates@[0] == i);
                    } else {
                        let d = digit_of(ev.code)->0;
                        assert(self.candidates@[d - 1] == i);
                    }
                }
            }
        }
        self.state = next;
    }
}

impl Disambiguation {
    /// Leaves `Empty` for `Cancelled`, with no key asked for.
    pub fn start(&mut self)
        requires
            old(self).wf(),
        ensures
            final(self).wf(),
            final(self).candidates@ == old(self).candidates@,
            final(self).state == settled(old(self).state),
    {
        if let State::Empty = self.state {
            self.state = State::Cancelled;
        }
    }

    /// Starts, then takes `events` in order; a terminal state ignores what follows.
    pub fn run(&mut self, events: &Vec<KeyEvent>)
        requires
            old(self).wf(),
        ensures
            final(self).wf(),
            final(self).candidates@ == old(self).candidates@,
            final(self).state == run_events(settled(old(self).state), old(self).candidates@, events@),
    {
        self.start();
        let ghost s0 = self.state;
        let mut k: usize = 0;
        while k < events.len()
            invariant
                self.wf(),
                self.candidates@ == old(self).candidates@,
                s0 == settled(old(self).state),
                k <= events@.len(),
                self.state == run_events(s0, self.candidates@, events@.subrange(0, k as int)),
            decreases events@.len() - k,
        {
            self.handle(events[k]);
            proof {
                assert(events@.subrange(0, k + 1).drop_last() =~= events@.subrange(0, k as int));
            }
            k += 1;
        }
        proof {
            assert(events@.subrange(0, events@.len() as int) =~= events@);
        }
    }

    /// `Some` of the chosen handle, `None` if nothing was chosen (yet).
    pub fn outcome(&self) -> (r: Option<usize>)
        ensures
            r == outcome_of(self.state),
    {
        match self.state {
            State::Resolved(i) => Some(i),
            _ => None,
        }
    }
}

/// Whether `code` declines.
pub fn is_cancel(code: KeyCode) -> (r: bool)
    ensures
        r == is_cancel_key(code),
{
    match code {
        KeyCode::Esc => true,
        KeyCode::Char(ch) => ch == 'q' || ch == 'Q' || ch == 'n' || ch == 'N',
        _ => false,
    }
}

/// The menu number that `code` stands for, if any.
pub fn menu_number(code: KeyCode) -> (r: Option<usize>)
    ensures
        r matches Some(d) ==> digit_of(code) == Some(d as nat),
        r is None ==> digit_of(code) is None,
{
    match code {
        KeyCode::Char(ch) => if '1' <= ch && ch <= '9' {
            Some(((ch as u32) - ('0' as u32)) as usize)
        } else {
            None
        },
        _ => None,
    }
}


/// The catalog handles of a ranking, best first.
pub open spec fn handles_of(r: Seq<Candidate>) -> Seq<usize> {
    r.map_values(|x: Candidate| x.index)
}

/// What resolving gives for the ranking `r` and the key events `evs`.
pub open spec fn resolution(r: Seq<Candidate>, evs: Seq<KeyEvent>) -> Option<usize> {
    outcome_of(run_events(settled(initial_state(r.len())), handles_of(r), evs))
}

/// The catalog handles of `ranked`, best first.
pub fn handles(ranked: &Vec<Candidate>) -> (r: Vec<usize>)
    ensures
        r@ == handles_of(ranked@),
{
    let mut r: Vec<usize> = Vec::new();
    let mut k: usize = 0;
    while k < ranked.len()
        invariant
            k <= ranked@.len(),
            r@ == handles_of(ranked@.subrange(0, k as int)),
        decreases ranked@.len() - k,
    {
        r.push(ranked[k].index);
        proof {
            assert(handles_of(ranked@.subrange(0, k + 1)) =~= handles_of(ranked@.subrange(0, k as int)).push(ranked@[k as int].index));
        }
        k += 1;
    }
    proof {
        assert(ranked@.subrange(0, ranked@.len() as int) =~= ranked@);
    }
    r
}

/// Resolves `query` against the catalog: ranks it, then lets `events`
/// (a finite run of key events) pick among the candidates. Gives the
/// catalog position of the chosen entry, or `None` where there was no
/// candidate, the user declined, or the events ran out first.
pub fn resolve(
    catalog: &Vec<Entry>,
    query: &str,
    filter: IndexOptions,
    config: &Config,
    events: &Vec<KeyEvent>,
) -> (r: Option<usize>)
    requires
        config.valid(),
        catalog_fits(catalog@),
        query@.len() <= MAX_LEN,
    ensures
        exists|rk: Seq<Candidate>| is_ranking(rk, catalog@, query@, filter, *config),
        forall|rk: Seq<Candidate>| #[trigger] is_ranking(rk, catalog@, query@, filter, *config) ==> r == resolution(rk, events@),
        r == resolution(ranking_of(catalog@, query@, filter, *config), events@),
        r matches Some(i) ==> qualifies(catalog@, query@, filter, *config, i as int),
{
    let ranked = rank(catalog, query, filter, config);
    let mut d = Disambiguation::new(handles(&ranked));
    d.run(events);
    proof {
        assert forall|rk: Seq<Candidate>| #[trigger] is_ranking(rk, catalog@, query@, filter, *config) implies rk == ranked@ by {
            lemma_ranking_unique(rk, ranked@, catalog@, query@, filter, *config);
        }
        assert(handles_of(ranked@).len() == ranked@.len());
        if let State::Resolved(i) = d.state {
            let k = choose|k: int| 0 <= k < handles_of(ranked@).len() && handles_of(ranked@)[k] == i;
            assert(ranked@[k].index == i);
        }
    }
    d.outcome()
}

} // verus!
