//! The leveled log and bounded trace buffer. The logger decides which
//! messages are kept, tags trace lines, and evicts the oldest trace entries
//! past the configured limit; rendering and the output target are the host's
//! concern, which reads the recorded lines.

use vstd::prelude::*;
use crate::strutil::{has_substr, spec_has_substr, strs_of};

verus! {

broadcast use crate::strutil::strs_of_len, crate::strutil::strs_of_index;

/// Where the host should render log lines.
#[derive(Debug, Clone, PartialEq, Eq, Structural)]
pub enum LogTarget {
    Stdout,
    Stderr,
    Json,
}

/// The severity of a recorded line.
#[derive(Debug, Clone, Copy, PartialEq, Eq, Structural)]
pub enum LogLevel {
    Info,
    Debug,
    Warn,
    Error,
}

/// The leveled log and the bounded trace buffer.
pub struct Logger {
    pub enabled: bool,
    pub verbose: bool,
    pub target: LogTarget,
    pub use_color: bool,
    pub trace_buffer: Vec<String>,
    pub trace_limit: usize,
    pub recorded: Vec<(LogLevel, String)>,
}

/// What a trace line looks like once tagged: lines already carrying a
/// promotion or evaluation tag are kept as they are, anything else gets the
/// trace prefix.
pub open spec fn spec_tagged(m: Seq<char>) -> Seq<char> {
    if spec_has_substr(m, "[PROMOTE]"@) || spec_has_substr(m, "[EVAL]"@) {
        m
    } else {
        "[TRACE] "@.add(m)
    }
}

/// The trace lines selected for a filtered view: newest first, keeping
/// lines that contain the filter (an empty filter keeps every line), at most
/// `limit` of them.
pub open spec fn spec_filtered(buf: Seq<Seq<char>>, filt: Seq<char>, limit: nat) -> Seq<Seq<char>>
    decreases buf.len(),
{
    if buf.len() == 0 || limit == 0 {
        Seq::empty()
    } else if filt.len() == 0 || spec_has_substr(buf.last(), filt) {
        seq![buf.last()].add(spec_filtered(buf.drop_last(), filt, (limit - 1) as nat))
    } else {
        spec_filtered(buf.drop_last(), filt, limit)
    }
}

impl Logger {
    /// The recorded trace lines, oldest first.
    pub open spec fn trace_view(&self) -> Seq<Seq<char>> {
        strs_of(self.trace_buffer@)
    }

    /// The configured bound on the trace buffer.
    pub open spec fn spec_trace_limit(&self) -> int {
        self.trace_limit as int
    }

    /// The recorded leveled lines, oldest first.
    pub open spec fn recorded_view(&self) -> Seq<(LogLevel, Seq<char>)> {
        levels_of(self.recorded@)
    }

    pub fn new() -> (r: Logger)
        ensures
            r.enabled,
            r.verbose,
            r.use_color,
            r.target == LogTarget::Stdout,
            r.trace_view() == Seq::<Seq<char>>::empty(),
            r.recorded_view() == Seq::<(LogLevel, Seq<char>)>::empty(),
            r.spec_trace_limit() == 100,
    {
        Logger {
            enabled: true,
            verbose: true,
            target: LogTarget::Stdout,
            use_color: true,
            trace_buffer: Vec::new(),
            trace_limit: 100,
            recorded: Vec::new(),
        }
    }

    /// Record an informational line, when logging is enabled.
    pub fn info(&mut self, message: &str)
        ensures
            *final(self) == (Logger {
                recorded: final(self).recorded,
                ..*old(self)
            }),
            old(self).enabled ==> final(self).recorded_view() == old(self).recorded_view().push(
                (LogLevel::Info, message@),
            ),
            !old(self).enabled ==> final(self).recorded_view() == old(self).recorded_view(),
    {
        if self.enabled {
            self.log(LogLevel::Info, message);
        }
    }

    /// Record a debugging line, when logging is enabled and verbose.
    pub fn debug(&mut self, message: &str)
        ensures
            *final(self) == (Logger {
                recorded: final(self).recorded,
                ..*old(self)
            }),
            old(self).enabled && old(self).verbose ==> final(self).recorded_view() == old(
                self,
            ).recorded_view().push((LogLevel::Debug, message@)),
            !(old(self).enabled && old(self).verbose) ==> final(self).recorded_view() == old(
                self,
            ).recorded_view(),
    {
        if self.enabled && self.verbose {
            self.log(LogLevel::Debug, message);
        }
    }

    /// Record a warning line, when logging is enabled.
    pub fn warn(&mut self, message: &str)
        ensures
            *final(self) == (Logger {
                recorded: final(self).recorded,
                ..*old(self)
            }),
            old(self).enabled ==> final(self).recorded_view() == old(self).recorded_view().push(
                (LogLevel::Warn, message@),
            ),
            !old(self).enabled ==> final(self).recorded_view() == old(self).recorded_view(),
    {
        if self.enabled {
            self.log(LogLevel::Warn, message);
        }
    }

    /// Record an error line, always.
    pub fn error(&mut self, message: &str)
        ensures
            *final(self) == (Logger {
                recorded: final(self).recorded,
                ..*old(self)
            }),
            final(self).recorded_view() == old(self).recorded_view().push(
                (LogLevel::Error, message@),
            ),
    {
        self.log(LogLevel::Error, message);
    }

    /// Record a line under the given level, bypassing the gates.
    pub fn log_with_ctx(&mut self, level: LogLevel, message: &str, scope: &str)
        ensures
            *final(self) == (Logger {
                recorded: final(self).recorded,
                ..*old(self)
            }),
            final(self).recorded_view() == old(self).recorded_view().push(
                (level, "["@.add(scope@).add("] "@).add(message@)),
            ),
    {
        let full = String::from_str("[").concat(scope).concat("] ").concat(message);
        self.log(level, full.as_str());
    }

    fn log(&mut self, level: LogLevel, message: &str)
        ensures
            *final(self) == (Logger {
                recorded: final(self).recorded,
                ..*old(self)
            }),
            final(self).recorded_view() == old(self).recorded_view().push((level, message@)),
    {
        let ghost raw0 = self.recorded@;
        self.recorded.push((level, message.to_owned()));
        proof {
            assert(self.recorded@.drop_last() =~= raw0);
            assert(levels_of(self.recorded@) =~= levels_of(raw0).push((level, message@)));
        }
    }

    /// Record a trace line, when logging is enabled and verbose: the tagged
    /// line enters the bounded buffer, evicting the oldest line once the
    /// limit is reached.
    pub fn trace(&mut self, message: &str)
        ensures
            *final(self) == (Logger {
                trace_buffer: final(self).trace_buffer,
                ..*old(self)
            }),
            !(old(self).enabled && old(self).verbose) ==> final(self).trace_view() == old(
                self,
            ).trace_view(),
            old(self).enabled && old(self).verbose ==> final(self).trace_view() == (if old(
                self,
            ).trace_view().len() >= old(self).spec_trace_limit() && old(
                self,
            ).trace_view().len() > 0 {
                old(self).trace_view().drop_first().push(spec_tagged(message@))
            } else {
                old(self).trace_view().push(spec_tagged(message@))
            }),
    {
        if self.enabled && self.verbose {
            let tagged: String = if has_substr(message, "[PROMOTE]") || has_substr(
                message,
                "[EVAL]",
            ) {
                message.to_owned()
            } else {
                String::from_str("[TRACE] ").concat(message)
            };
            if self.trace_buffer.len() >= self.trace_limit && self.trace_buffer.len() > 0 {
                let ghost raw0 = self.trace_buffer@;
                let _ = self.trace_buffer.remove(0);
                proof {
                    assert(self.trace_buffer@ =~= raw0.drop_first());
                    lemma_strs_of_drop_first(raw0);
                }
            }
            let ghost raw1 = self.trace_buffer@;
            self.trace_buffer.push(tagged);
            proof {
                assert(self.trace_buffer@.drop_last() =~= raw1);
                assert(strs_of(self.trace_buffer@) =~= strs_of(raw1).push(
                    spec_tagged(message@),
                ));
            }
        }
    }

    /// A copy of the trace buffer, oldest first.
    pub fn get_trace_logs(&self) -> (r: Vec<String>)
        ensures
            strs_of(r@) == self.trace_view(),
    {
        let mut r: Vec<String> = Vec::new();
        let mut i: usize = 0;
        proof {
            assert(strs_of(r@) =~= self.trace_view().take(0));
        }
        while i < self.trace_buffer.len()
            invariant
                i <= self.trace_buffer@.len(),
                strs_of(r@) == self.trace_view().take(i as int),
            decreases self.trace_buffer@.len() - i,
        {
            let ghost raw_b = r@;
            r.push(self.trace_buffer[i].clone());
            proof {
                assert(r@.drop_last() =~= raw_b);
                assert(strs_of(r@) =~= strs_of(raw_b).push(self.trace_buffer@[i as int]@));
                assert(self.trace_view().take(i + 1) =~= self.trace_view().take(i as int).push(
                    self.trace_view()[i as int],
                ));
            }
            i += 1;
        }
        proof {
            assert(self.trace_view().take(self.trace_buffer@.len() as int) =~= self.trace_view());
        }
        r
    }

    /// The filtered view of the trace buffer: newest first, lines containing
    /// the filter (none keeps every line), at most `limit` (none keeps all).
    pub fn reflect_trace_filtered(&self, filter: Option<&str>, limit: Option<usize>) -> (r: Vec<
        String,
    >)
        ensures
            strs_of(r@) == spec_filtered(
                self.trace_view(),
                match filter {
                    Some(f) => f@,
                    None => Seq::empty(),
                },
                match limit {
                    Some(l) => l as nat,
                    None => self.trace_view().len(),
                },
            ),
    {
        let f: &str = match filter {
            Some(f) => f,
            None => "",
        };
        proof {
            reveal_strlit("");
            if filter is None {
                assert(f@.len() == 0);
                assert(f@ =~= Seq::<char>::empty());
            }
        }
        let max: usize = match limit {
            Some(l) => l,
            None => self.trace_buffer.len(),
        };
        let ghost tv = self.trace_view();
        let ghost fv = f@;
        let mut r: Vec<String> = Vec::new();
        let mut i: usize = self.trace_buffer.len();
        let mut count: usize = 0;
        proof {
            assert(tv.take(i as int) =~= tv);
        }
        while i > 0 && count < max
            invariant
                i <= self.trace_buffer@.len(),
                count <= max,
                tv == self.trace_view(),
                fv == f@,
                count == r@.len(),
                spec_filtered(tv, fv, max as nat) == strs_of(r@).add(
                    spec_filtered(tv.take(i as int), fv, (max - count) as nat),
                ),
            decreases i,
        {
            let ghost pre = tv.take(i as int);
            i -= 1;
            let line = &self.trace_buffer[i];
            proof {
                assert(pre.last() == tv[i as int]);
                assert(pre.drop_last() =~= tv.take(i as int));
            }
            let keep = f.unicode_len() == 0 || has_substr(line.as_str(), f);
            if keep {
                let ghost rraw = r@;
                r.push(line.clone());
                count += 1;
                proof {
                    assert(r@.drop_last() =~= rraw);
                    assert(strs_of(r@) =~= strs_of(rraw).push(tv[i as int]));
                    assert(spec_filtered(pre, fv, (max - count + 1) as nat) == seq![
                        pre.last(),
                    ].add(spec_filtered(tv.take(i as int), fv, (max - count) as nat)));
                    assert(strs_of(rraw).add(
                        seq![pre.last()].add(
                            spec_filtered(tv.take(i as int), fv, (max - count) as nat),
                        ),
                    ) =~= strs_of(r@).add(
                        spec_filtered(tv.take(i as int), fv, (max - count) as nat),
                    ));
                }
            } else {
                proof {
                    assert(spec_filtered(pre, fv, (max - count) as nat) == spec_filtered(
                        tv.take(i as int),
                        fv,
                        (max - count) as nat,
                    ));
                }
            }
        }
        proof {
            if count >= max {
                assert(spec_filtered(tv.take(i as int), fv, (max - count) as nat) == Seq::<
                    Seq<char>,
                >::empty());
            } else {
                assert(tv.take(0) =~= Seq::<Seq<char>>::empty());
                assert(spec_filtered(tv.take(i as int), fv, (max - count) as nat) == Seq::<
                    Seq<char>,
                >::empty());
            }
            assert(strs_of(r@).add(Seq::<Seq<char>>::empty()) =~= strs_of(r@));
        }
        r
    }

    /// Change the trace bound, discarding the oldest lines past it.
    pub fn set_trace_limit(&mut self, limit: usize)
        ensures
            final(self).spec_trace_limit() == limit,
            *final(self) == (Logger {
                trace_buffer: final(self).trace_buffer,
                trace_limit: limit,
                ..*old(self)
            }),
            final(self).trace_view() == (if old(self).trace_view().len() > limit {
                old(self).trace_view().skip(old(self).trace_view().len() - limit)
            } else {
                old(self).trace_view()
            }),
    {
        self.trace_limit = limit;
        let ghost t0 = strs_of(old(self).trace_buffer@);
        while self.trace_buffer.len() > limit
            invariant
                self.trace_limit == limit,
                *self == (Logger {
                    trace_buffer: self.trace_buffer,
                    trace_limit: limit,
                    ..*old(self)
                }),
                strs_of(self.trace_buffer@) == (if t0.len() > limit {
                    t0.skip(t0.len() - self.trace_buffer@.len())
                } else {
                    t0
                }),
                self.trace_buffer@.len() <= t0.len(),
                t0.len() > limit ==> self.trace_buffer@.len() >= limit,
            decreases self.trace_buffer@.len(),
        {
            let ghost raw0 = self.trace_buffer@;
            let _ = self.trace_buffer.remove(0);
            proof {
                assert(self.trace_buffer@ =~= raw0.drop_first());
                lemma_strs_of_drop_first(raw0);
                assert(strs_of(raw0).drop_first() =~= t0.skip(t0.len() - raw0.len()).drop_first());
                assert(t0.skip(t0.len() - raw0.len()).drop_first() =~= t0.skip(
                    t0.len() - raw0.len() + 1,
                ));
            }
        }
    }

    pub fn disable(&mut self)
        ensures
            *final(self) == (Logger { enabled: false, ..*old(self) }),
    {
        self.enabled = false;
    }

    pub fn enable(&mut self)
        ensures
            *final(self) == (Logger { enabled: true, ..*old(self) }),
    {
        self.enabled = true;
    }

    pub fn set_verbose(&mut self, value: bool)
        ensures
            *final(self) == (Logger { verbose: value, ..*old(self) }),
    {
        self.verbose = value;
    }

    pub fn set_target(&mut self, target: LogTarget)
        ensures
            *final(self) == (Logger { target: target, ..*old(self) }),
    {
        self.target = target;
    }

    pub fn set_color(&mut self, value: bool)
        ensures
            *final(self) == (Logger { use_color: value, ..*old(self) }),
    {
        self.use_color = value;
    }

    /// How many leveled lines have been recorded.
    pub fn recorded_len(&self) -> (n: usize)
        ensures
            n == self.recorded_view().len(),
    {
        proof {
            lemma_levels_of_len(self.recorded@);
        }
        self.recorded.len()
    }

    /// One recorded leveled line.
    pub fn recorded_at(&self, i: usize) -> (r: (LogLevel, &String))
        requires
            i < self.recorded_view().len(),
        ensures
            r.0 == self.recorded_view()[i as int].0,
            r.1@ == self.recorded_view()[i as int].1,
    {
        proof {
            lemma_levels_of_len(self.recorded@);
            lemma_levels_of_index(self.recorded@, i as int);
        }
        (self.recorded[i].0, &self.recorded[i].1)
    }
}

/// The abstract values of recorded leveled lines.
pub open spec fn levels_of(s: Seq<(LogLevel, String)>) -> Seq<(LogLevel, Seq<char>)>
    decreases s.len(),
{
    if s.len() == 0 {
        Seq::empty()
    } else {
        levels_of(s.drop_last()).push((s.last().0, s.last().1@))
    }
}

proof fn lemma_levels_of_len(s: Seq<(LogLevel, String)>)
    ensures
        levels_of(s).len() == s.len(),
    decreases s.len(),
{
    if s.len() > 0 {
        lemma_levels_of_len(s.drop_last());
    }
}

proof fn lemma_levels_of_index(s: Seq<(LogLevel, String)>, i: int)
    requires
        0 <= i < s.len(),
    ensures
        levels_of(s).len() == s.len(),
        levels_of(s)[i] == (s[i].0, s[i].1@),
    decreases s.len(),
{
    lemma_levels_of_len(s);
    if i < s.len() - 1 {
        lemma_levels_of_index(s.drop_last(), i);
        assert(s.drop_last()[i] == s[i]);
        lemma_levels_of_len(s.drop_last());
    }
}

proof fn lemma_strs_of_drop_first(s: Seq<String>)
    requires
        s.len() > 0,
    ensures
        strs_of(s.drop_first()) == strs_of(s).drop_first(),
{
    assert forall|j: int| 0 <= j < s.len() - 1 implies strs_of(s.drop_first())[j] == strs_of(
        s,
    ).drop_first()[j] by {
        assert(s.drop_first()[j] == s[j + 1]);
    }
    assert(strs_of(s.drop_first()) =~= strs_of(s).drop_first());
}

} // verus!
