//! The interactive session: query text, mode, selection index, ranked
//! results and the transient calculator result, with the commands that a
//! front end drives it with.
//!
//! The display list is the calculator slot (when present) followed by the
//! ranked candidates; `select_index` walks that merged list.

use vstd::prelude::*;

use crate::calculator::{evaluate, is_math_expression, spec_evaluate, spec_is_math, Rat};
use crate::selection::{
    eff_score, fuzzy_score, is_ci_subsequence, spec_hist_inc, Element, ElementList, History,
};

verus! {

/// The resolved outcome of confirming the current selection.
pub enum ExecAction {
    /// The formatted calculator result goes to the clipboard; no process
    /// is spawned and history is untouched.
    CopyResult(Rat),
    /// The command text is emitted to the caller; history was already
    /// credited.
    Emit(Element),
    /// The command is to be spawned as a detached process; history is
    /// credited only after the liveness check.
    Spawn(Element),
}

/// One observation of a freshly spawned child process.
pub enum SpawnPoll {
    /// The child is still running after the grace interval.
    StillAlive,
    /// The child already exited with status zero.
    ExitedZero,
    /// The child exited with any other status.
    ExitedOther,
    /// The liveness check itself failed.
    CheckFailed,
}

/// An observed launch earns a history credit exactly when the child is
/// still running or already exited cleanly.
pub fn should_record_use(p: &SpawnPoll) -> (r: bool)
    ensures
        r == (p is StillAlive || p is ExitedZero),
{
    matches!(p, SpawnPoll::StillAlive | SpawnPoll::ExitedZero)
}

/// The session state.
pub struct App {
    pub query: String,
    pub select_index: usize,
    pub select_input: bool,
    pub all_entries: ElementList,
    pub history: Option<History>,
    pub last_search_result: Vec<usize>,
    pub calculator_result: Option<(String, Rat)>,
    pub stdout_mode: bool,
}

impl App {
    /// How many display slots there are: the ranked candidates, plus the
    /// calculator slot when present.
    pub open spec fn total_results(self) -> int {
        self.last_search_result@.len() + if self.calculator_result is Some {
            1int
        } else {
            0int
        }
    }

    /// The session invariant: ranked positions point into the candidate
    /// list, and in navigation mode the selection lies on a display slot;
    /// with nothing to select the session is editing free input.
    pub open spec fn wf(self) -> bool {
        &&& self.all_entries@.len() < usize::MAX
        &&& self.last_search_result@.len() <= self.all_entries@.len()
        &&& forall|j: int|
            0 <= j < self.last_search_result@.len()
                ==> (#[trigger] self.last_search_result@[j]) < self.all_entries@.len()
        &&& (!self.select_input ==> 0 < self.total_results() && (self.select_index as int)
            < self.total_results())
        &&& (self.total_results() == 0 ==> self.select_input)
    }

    /// After a search, the ranked list holds exactly the matching
    /// candidates in score order, and the calculator slot is filled
    /// exactly when the query is an evaluable expression.
    pub open spec fn search_current(self) -> bool {
        &&& forall|j: int|
            0 <= j < self.last_search_result@.len() ==> fuzzy_score(
                self.all_entries@[#[trigger] self.last_search_result@[j] as int]@.name,
                self.query@,
            ) is Some && is_ci_subsequence(
                self.query@,
                self.all_entries@[self.last_search_result@[j] as int]@.name,
            )
        &&& forall|i: int|
            0 <= i < self.all_entries@.len() && fuzzy_score(self.all_entries@[i]@.name, self.query@)
                is Some ==> exists|j: int|
                0 <= j < self.last_search_result@.len() && #[trigger] self.last_search_result@[j]
                    == i
        &&& forall|j: int, k: int|
            0 <= j < k < self.last_search_result@.len() ==> self.last_search_result@[j]
                != self.last_search_result@[k]
        &&& forall|j: int, k: int|
            0 <= j < k < self.last_search_result@.len() ==> eff_score(
                self.all_entries@[#[trigger] self.last_search_result@[k] as int]@,
                self.query@,
            ) <= eff_score(self.all_entries@[#[trigger] self.last_search_result@[j] as int]@, self.query@)
        &&& (self.calculator_result is Some <==> (spec_is_math(self.query@) && spec_evaluate(
            self.query@,
        ) is Ok))
        &&& (self.calculator_result matches Some(p) ==> p.0@ == self.query@ && spec_evaluate(
            self.query@,
        ) == Ok::<Rat, crate::calculator::EvalError>(p.1))
    }

    /// How many display slots there are.
    pub fn get_total_results(&self) -> (r: usize)
        requires
            self.wf(),
        ensures
            r as int == self.total_results(),
    {
        let extra: usize = if self.calculator_result.is_some() {
            1
        } else {
            0
        };
        self.last_search_result.len() + extra
    }

    /// Starts a session over the aggregated candidates and runs the first
    /// search with the empty query.
    pub fn new(stdout_mode: bool, all_entries: ElementList, history: Option<History>) -> (r: Self)
        requires
            all_entries@.len() < usize::MAX,
        ensures
            r.wf(),
            r.search_current(),
            r.query@.len() == 0,
            r.all_entries@ == all_entries@,
            r.history == history,
            r.stdout_mode == stdout_mode,
            r.select_index == 0,
            r.select_input == (r.total_results() == 0),
    {
        let mut app = App {
            query: String::new(),
            select_index: 0,
            select_input: true,
            all_entries,
            history,
            last_search_result: Vec::new(),
            calculator_result: None,
            stdout_mode,
        };
        app.search();
        app
    }

    /// Re-runs ranking and the calculator for the current query, resets
    /// the selection to the top, and picks the mode: free-input editing
    /// exactly when nothing at all can be selected.
    pub fn search(&mut self)
        requires
            old(self).wf(),
        ensures
            final(self).wf(),
            final(self).search_current(),
            final(self).query == old(self).query,
            final(self).all_entries == old(self).all_entries,
            final(self).history == old(self).history,
            final(self).stdout_mode == old(self).stdout_mode,
            final(self).select_index == 0,
            final(self).select_input == (final(self).total_results() == 0),
    {
        self.last_search_result = Vec::new();
        self.calculator_result = None;
        if is_math_expression(self.query.as_str()) {
            match evaluate(self.query.as_str()) {
                Ok(r) => {
                    self.calculator_result = Some((self.query.clone(), r));
                },
                Err(_) => {},
            }
        }
        let idx = self.all_entries.search_indices(self.query.as_str());
        self.last_search_result = idx;
        self.select_input = false;
        self.select_index = 0;
        if self.calculator_result.is_none() && self.last_search_result.len() == 0 {
            self.select_input = true;
        }
    }

    /// Appends text to the query and searches again.
    pub fn insert(&mut self, input: &str)
        requires
            old(self).wf(),
        ensures
            final(self).wf(),
            final(self).search_current(),
            final(self).query@ == old(self).query@ + input@,
            final(self).all_entries == old(self).all_entries,
            final(self).history == old(self).history,
            final(self).stdout_mode == old(self).stdout_mode,
            final(self).select_index == 0,
            final(self).select_input == (final(self).total_results() == 0),
    {
        self.query.append(input);
        self.search();
    }

    /// Removes the last character of the query and searches again.
    pub fn delete(&mut self)
        requires
            old(self).wf(),
        ensures
            final(self).wf(),
            final(self).search_current(),
            final(self).query@ == if old(self).query@.len() > 0 {
                old(self).query@.drop_last()
            } else {
                old(self).query@
            },
            final(self).all_entries == old(self).all_entries,
            final(self).history == old(self).history,
            final(self).stdout_mode == old(self).stdout_mode,
            final(self).select_index == 0,
            final(self).select_input == (final(self).total_results() == 0),
    {
        let n = self.query.as_str().unicode_len();
        if n > 0 {
            let shorter = String::from_str(self.query.as_str().substring_char(0, n - 1));
            proof {
                assert(shorter@ =~= self.query@.drop_last());
            }
            self.query = shorter;
        }
        self.search();
    }

    /// Removes the trailing word: the last character, then everything back
    /// through (and including) the previous space.
    pub fn delete_word(&mut self)
        requires
            old(self).wf(),
        ensures
            final(self).wf(),
            final(self).search_current(),
            final(self).query@ == old(self).query@.subrange(0, chop_word(old(self).query@)),
            final(self).all_entries == old(self).all_entries,
            final(self).history == old(self).history,
            final(self).stdout_mode == old(self).stdout_mode,
            final(self).select_index == 0,
            final(self).select_input == (final(self).total_results() == 0),
    {
        let ghost q = self.query@;
        let n = self.query.as_str().unicode_len();
        if n == 0 {
            proof {
                assert(q.subrange(0, chop_word(q)) =~= q);
            }
            self.search();
            return ;
        }
        let mut k: usize = n - 1;
        loop
            invariant_except_break
                chop_from(q, k as int) == chop_word(q),
            invariant
                k <= n - 1,
                n == q.len(),
                q == self.query@,
            ensures
                q == self.query@,
                n == q.len(),
                k as int == chop_word(q),
                k <= n,
            decreases k,
        {
            if k == 0 {
                proof {
                    assert(chop_from(q, 0) == 0);
                }
                break ;
            }
            let c = self.query.as_str().get_char(k - 1);
            proof {
                if c == ' ' {
                    assert(chop_from(q, k as int) == k - 1);
                } else {
                    assert(chop_from(q, k as int) == chop_from(q, k - 1));
                }
            }
            k = k - 1;
            if c == ' ' {
                break ;
            }
        }
        let shorter = String::from_str(self.query.as_str().substring_char(0, k));
        self.query = shorter;
        self.search();
    }

    /// Moves the selection up; from the top of the list with a non-empty
    /// query it switches to editing the raw input instead.
    pub fn nav_up(&mut self, distance: usize)
        requires
            old(self).wf(),
        ensures
            final(self).wf(),
            old(self).select_index > 0 ==> *final(self) == (App {
                select_index: if old(self).select_index >= distance {
                    (old(self).select_index - distance) as usize
                } else {
                    0
                },
                ..*old(self)
            }),
            old(self).select_index == 0 && old(self).query@.len() > 0 ==> *final(self) == (App {
                select_input: true,
                ..*old(self)
            }),
            old(self).select_index == 0 && old(self).query@.len() == 0 ==> *final(self) == *old(self),
    {
        if self.select_index > 0 {
            if self.select_index >= distance {
                self.select_index = self.select_index - distance;
            } else {
                self.select_index = 0;
            }
        } else if self.query.as_str().unicode_len() > 0 {
            self.select_input = true;
        }
    }

    /// Moves the selection down, capped at the last display slot; from
    /// free-input editing with results present it returns to the top of
    /// the list.
    pub fn nav_down(&mut self, distance: usize)
        requires
            old(self).wf(),
        ensures
            final(self).wf(),
            old(self).select_input && old(self).total_results() > 0 ==> *final(self) == (App {
                select_input: false,
                select_index: 0,
                ..*old(self)
            }),
            old(self).select_input && old(self).total_results() == 0 ==> *final(self) == *old(self),
            !old(self).select_input ==> *final(self) == (App {
                select_index: if old(self).select_index + distance < old(self).total_results() {
                    (old(self).select_index + distance) as usize
                } else {
                    (old(self).total_results() - 1) as usize
                },
                ..*old(self)
            }),
    {
        if self.select_input {
            if self.calculator_result.is_some() || self.last_search_result.len() > 0 {
                self.select_input = false;
                self.select_index = 0;
            }
        } else {
            let t = self.get_total_results();
            let room = t - 1 - self.select_index;
            if distance < room {
                self.select_index = self.select_index + distance;
            } else {
                self.select_index = t - 1;
            }
        }
    }

    /// Replaces the query with the highlighted ranked candidate's name; if
    /// the query already equals it, advances the selection instead, capped
    /// at the last display slot.  With the calculator slot highlighted, or
    /// in free-input editing, nothing changes.
    ///
    /// Repeated completion on an exact match therefore cycles forward
    /// through the results one slot per call and then holds at the last
    /// slot, rather than re-copying the same name: the clauses below pin
    /// each call exactly, and the ranked list itself is never re-run.
    pub fn complete(&mut self)
        requires
            old(self).wf(),
        ensures
            final(self).wf(),
            old(self).select_input ==> *final(self) == *old(self),
            !old(self).select_input && old(self).calculator_result is Some && old(self).select_index
                == 0 ==> *final(self) == *old(self),
            !old(self).select_input && (old(self).calculator_result is None || old(
                self,
            ).select_index > 0) ==> {
                let off: int = if old(self).calculator_result is Some {
                    1int
                } else {
                    0int
                };
                let cand = old(self).all_entries@[old(self).last_search_result@[old(
                    self,
                ).select_index - off] as int];
                &&& final(self).query == cand.name
                &&& (old(self).query@ == cand.name@ ==> final(self).select_index as int == if old(
                    self,
                ).select_index + 1 < old(self).total_results() {
                    old(self).select_index + 1
                } else {
                    old(self).select_index as int
                })
                &&& (old(self).query@ != cand.name@ ==> final(self).select_index == old(
                    self,
                ).select_index)
                &&& final(self).select_input == old(self).select_input
                &&& final(self).all_entries == old(self).all_entries
                &&& final(self).last_search_result == old(self).last_search_result
                &&& final(self).calculator_result == old(self).calculator_result
                &&& final(self).history == old(self).history
                &&& final(self).stdout_mode == old(self).stdout_mode
            },
    {
        if self.select_input {
            return ;
        }
        let offset: usize = if self.calculator_result.is_some() {
            1
        } else {
            0
        };
        if self.select_index < offset {
            return ;
        }
        let rpos = self.select_index - offset;
        let idx = self.last_search_result[rpos];
        let candidate = self.all_entries.get(idx).clone();
        if self.query == candidate.name {
            let t = self.get_total_results();
            if self.select_index + 1 < t {
                self.select_index = self.select_index + 1;
            }
        }
        self.query = candidate.name;
    }

    /// Resolves the current selection into the action the front end must
    /// perform.  The calculator slot goes to the clipboard; free input
    /// becomes a literal command; a ranked candidate is looked up through
    /// its list position.  In print mode history is credited here; for a
    /// spawned command it is credited only after the liveness check.
    pub fn execute(&mut self) -> (r: ExecAction)
        requires
            old(self).wf(),
        ensures
            final(self).wf(),
            !old(self).select_input && old(self).calculator_result is Some && old(self).select_index
                == 0 ==> *final(self) == *old(self) && (r matches ExecAction::CopyResult(v) && Some(v)
                == spec_calc_value(old(self).calculator_result)),
            old(self).select_input || old(self).calculator_result is None || old(self).select_index
                > 0 ==> {
                let elem = spec_execute_target(*old(self));
                &&& (old(self).stdout_mode ==> (r matches ExecAction::Emit(e) && e@ == elem))
                &&& (!old(self).stdout_mode ==> (r matches ExecAction::Spawn(e) && e@ == elem))
                &&& (old(self).stdout_mode ==> spec_history_credited(
                    old(self).history,
                    final(self).history,
                    elem,
                ))
                &&& (!old(self).stdout_mode ==> final(self).history == old(self).history)
                &&& final(self).stdout_mode == old(self).stdout_mode
                &&& final(self).query == old(self).query
                &&& final(self).all_entries == old(self).all_entries
                &&& final(self).last_search_result == old(self).last_search_result
                &&& final(self).calculator_result == old(self).calculator_result
                &&& final(self).select_index == old(self).select_index
                &&& final(self).select_input == old(self).select_input
            },
    {
        if !self.select_input && self.calculator_result.is_some() && self.select_index == 0 {
            let rat = match &self.calculator_result {
                Some(p) => p.1,
                None => Rat { num: 0, den: 1 },
            };
            return ExecAction::CopyResult(rat);
        }
        let element: Element = if self.select_input {
            Element { name: self.query.clone(), value: self.query.clone(), base_score: 0 }
        } else {
            let offset: usize = if self.calculator_result.is_some() {
                1
            } else {
                0
            };
            let rpos = self.select_index - offset;
            let idx = self.last_search_result[rpos];
            self.all_entries.get(idx).clone()
        };
        if self.stdout_mode {
            match &mut self.history {
                Some(h) => {
                    h.inc(&element);
                },
                None => {},
            }
            ExecAction::Emit(element)
        } else {
            ExecAction::Spawn(element)
        }
    }

    /// Credits one use of the executed candidate to the history, after the
    /// front end's liveness check deemed the launch successful.
    pub fn record_use(&mut self, elem: &Element)
        ensures
            spec_history_credited(old(self).history, final(self).history, elem@),
            final(self).stdout_mode == old(self).stdout_mode,
            final(self).query == old(self).query,
            final(self).all_entries == old(self).all_entries,
            final(self).last_search_result == old(self).last_search_result,
            final(self).calculator_result == old(self).calculator_result,
            final(self).select_index == old(self).select_index,
            final(self).select_input == old(self).select_input,
    {
        match &mut self.history {
            Some(h) => {
                h.inc(elem);
            },
            None => {},
        }
    }
}

/// The value held by the calculator slot.
pub open spec fn spec_calc_value(c: Option<(String, Rat)>) -> Option<Rat> {
    match c {
        Some(p) => Some(p.1),
        None => None,
    }
}

/// The candidate that `execute` resolves outside the calculator slot: the
/// literal query in free-input editing, else the ranked candidate at the
/// selected display slot.
pub open spec fn spec_execute_target(app: App) -> crate::selection::ElemV {
    if app.select_input {
        crate::selection::ElemV { name: app.query@, value: app.query@, base_score: 0 }
    } else {
        let off: int = if app.calculator_result is Some {
            1int
        } else {
            0int
        };
        app.all_entries@[app.last_search_result@[app.select_index - off] as int]@
    }
}

/// The history after a use of `elem` was credited: unchanged when absent,
/// else the same-named entry's counter grew by one (or a fresh entry was
/// added).
pub open spec fn spec_history_credited(
    before: Option<History>,
    after: Option<History>,
    elem: crate::selection::ElemV,
) -> bool {
    match before {
        None => after is None,
        Some(h) => match after {
            Some(h2) => exists|e: Element|
                e@ == elem && h2@ == #[trigger] spec_hist_inc(h@, e),
            None => false,
        },
    }
}

/// Where the trailing-word removal cuts: scanning from `k` leftward, right
/// after the first space met (which is removed too), or the start.
pub open spec fn chop_from(s: Seq<char>, k: int) -> int
    decreases k,
{
    if k <= 0 {
        0
    } else if s[k - 1] == ' ' {
        k - 1
    } else {
        chop_from(s, k - 1)
    }
}

/// The length the query keeps after `delete_word`: the last character
/// goes, then everything back through the previous space.
pub open spec fn chop_word(s: Seq<char>) -> int {
    if s.len() == 0 {
        0
    } else {
        chop_from(s, s.len() - 1)
    }
}

} // verus!
