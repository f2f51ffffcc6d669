use vstd::prelude::*;

use crate::text::{
    arg_views, contains, contains_chars, copy_chars, join, join_newline, lemma_views_push, lines,
    lines_of, string_of, to_chars, views,
};

verus! {

/// A short-circuit of a user filter: where the output holds `pattern`, and not
/// `unless_pattern`, all of it is replaced by `message`.
pub struct UserMatchOutput {
    pub pattern: String,
    pub message: String,
    pub unless_pattern: Option<String>,
}

/// A user-defined filter for one command.
pub struct UserCommandFilter {
    pub strip_lines_matching: Vec<String>,
    pub keep_lines_matching: Vec<String>,
    pub match_output: Option<UserMatchOutput>,
    pub on_empty: Option<String>,
    pub max_lines: Option<usize>,
}

impl Default for UserCommandFilter {
    fn default() -> (r: Self)
        ensures
            r.strip_lines_matching@.len() == 0,
            r.keep_lines_matching@.len() == 0,
            r.match_output is None,
            r.on_empty is None,
            r.max_lines is None,
    {
        UserCommandFilter {
            strip_lines_matching: Vec::new(),
            keep_lines_matching: Vec::new(),
            match_output: None,
            on_empty: None,
            max_lines: None,
        }
    }
}

/// Output filter defined by the user.
pub struct UserFilterHandler {
    pub filter_def: UserCommandFilter,
}

/// The line holds one of the patterns.
pub open spec fn matches_any(l: Seq<char>, pats: Seq<Seq<char>>) -> bool {
    exists|i: int| 0 <= i < pats.len() && contains(l, #[trigger] pats[i])
}

/// The line holds one of the patterns, as a predicate.
pub open spec fn holds_any(pats: Seq<Seq<char>>) -> spec_fn(Seq<char>) -> bool {
    |l: Seq<char>| matches_any(l, pats)
}

/// The line holds none of the patterns, as a predicate.
pub open spec fn holds_none(pats: Seq<Seq<char>>) -> spec_fn(Seq<char>) -> bool {
    |l: Seq<char>| !matches_any(l, pats)
}

/// The short-circuit applies to the output.
pub open spec fn short_circuits(mo: UserMatchOutput, output: Seq<char>) -> bool {
    contains(output, mo.pattern@) && !match mo.unless_pattern {
        Some(p) => contains(output, p@),
        None => false,
    }
}

/// The lines left by the strip, keep and limit steps of a user filter.
pub open spec fn user_lines(def: UserCommandFilter, output: Seq<char>) -> Seq<Seq<char>> {
    let strip = arg_views(def.strip_lines_matching@);
    let keep = arg_views(def.keep_lines_matching@);
    let stripped = lines(output).filter(holds_none(strip));
    let kept = if keep.len() > 0 {
        stripped.filter(holds_any(keep))
    } else {
        stripped
    };
    match def.max_lines {
        Some(m) => if kept.len() > m {
            kept.take(m as int)
        } else {
            kept
        },
        None => kept,
    }
}

/// A user filter leaves only lines of the output: none of them holds a strip pattern,
/// each holds a keep pattern where there are any, and there are at most `max_lines`.
pub proof fn law_user_lines(def: UserCommandFilter, output: Seq<char>)
    ensures
        forall|i: int|
            0 <= i < user_lines(def, output).len() ==> {
                let l = #[trigger] user_lines(def, output)[i];
                &&& lines(output).contains(l)
                &&& !matches_any(l, arg_views(def.strip_lines_matching@))
                &&& def.keep_lines_matching@.len() > 0 ==> matches_any(
                    l,
                    arg_views(def.keep_lines_matching@),
                )
            },
        def.max_lines matches Some(m) ==> user_lines(def, output).len() <= m,
{
    let strip = arg_views(def.strip_lines_matching@);
    let keep = arg_views(def.keep_lines_matching@);
    let ls = lines(output);
    let stripped = ls.filter(holds_none(strip));
    let kept = if keep.len() > 0 {
        stripped.filter(holds_any(keep))
    } else {
        stripped
    };
    let ul = user_lines(def, output);
    assert forall|i: int| 0 <= i < ul.len() implies {
        let l = #[trigger] ul[i];
        &&& ls.contains(l)
        &&& !matches_any(l, strip)
        &&& keep.len() > 0 ==> matches_any(l, keep)
    } by {
        assert(ul[i] == kept[i]);
        let l = kept[i];
        let j: int = if keep.len() > 0 {
            stripped.lemma_filter_pred(holds_any(keep), i);
            assert(stripped.filter(holds_any(keep)).contains(l));
            stripped.lemma_filter_contains_rev(holds_any(keep), l);
            choose|j: int| 0 <= j < stripped.len() && stripped[j] == l
        } else {
            i
        };
        assert(stripped[j] == l);
        ls.lemma_filter_pred(holds_none(strip), j);
        assert(stripped.contains(l));
        ls.lemma_filter_contains_rev(holds_none(strip), l);
    }
}

proof fn lemma_filter_filter(s: Seq<Seq<char>>, p: spec_fn(Seq<char>) -> bool, q: spec_fn(Seq<char>) -> bool)
    ensures
        s.filter(p).filter(q) == s.filter(|x: Seq<char>| p(x) && q(x)),
    decreases s.len(),
{
    let pq = |x: Seq<char>| p(x) && q(x);
    if s.len() == 0 {
        assert(s.filter(p) =~= s);
        assert(s.filter(pq) =~= s);
        assert(s.filter(p).filter(q) =~= s);
    } else {
        let t = s.drop_last();
        let e = s.last();
        assert(s == t.push(e));
        lemma_filter_filter(t, p, q);
        t.lemma_filter_push(e, p);
        t.lemma_filter_push(e, pq);
        t.filter(p).lemma_filter_push(e, q);
    }
}

/// Before the cap, the lines a user filter keeps are exactly the lines of the output
/// that contain none of the strip patterns and, where there are keep patterns, contain at
/// least one of them; the cap then keeps the first `max_lines` of them.
pub proof fn law_user_lines_exact(def: UserCommandFilter, output: Seq<char>)
    ensures
        ({
            let strip = arg_views(def.strip_lines_matching@);
            let keep = arg_views(def.keep_lines_matching@);
            let sel = lines(output).filter(
                |l: Seq<char>|
                    !(exists|k: int| 0 <= k < strip.len() && contains(l, #[trigger] strip[k])) && (
                    keep.len() == 0 || exists|k: int|
                        0 <= k < keep.len() && contains(l, #[trigger] keep[k])),
            );
            user_lines(def, output) == match def.max_lines {
                Some(m) => if sel.len() > m {
                    sel.take(m as int)
                } else {
                    sel
                },
                None => sel,
            }
        }),
{
    let strip = arg_views(def.strip_lines_matching@);
    let keep = arg_views(def.keep_lines_matching@);
    let ls = lines(output);
    let f = |l: Seq<char>|
        !(exists|k: int| 0 <= k < strip.len() && contains(l, #[trigger] strip[k])) && (keep.len()
            == 0 || exists|k: int| 0 <= k < keep.len() && contains(l, #[trigger] keep[k]));
    let stripped = ls.filter(holds_none(strip));
    if keep.len() > 0 {
        lemma_filter_filter(ls, holds_none(strip), holds_any(keep));
        assert(f =~= (|x: Seq<char>| holds_none(strip)(x) && holds_any(keep)(x)));
    } else {
        assert(f =~= holds_none(strip));
    }
    assert(ls.filter(f) == if keep.len() > 0 {
        stripped.filter(holds_any(keep))
    } else {
        stripped
    });
}

/// What a user filter returns: its message where it short-circuits; else the lines
/// left by its steps, or its empty-output text where none is left.
pub open spec fn user_result(def: UserCommandFilter, output: Seq<char>) -> Seq<char> {
    if def.match_output matches Some(mo) && short_circuits(mo, output) {
        def.match_output.unwrap().message@
    } else {
        let ls = user_lines(def, output);
        if ls.len() == 0 {
            match def.on_empty {
                Some(e) => e@,
                None => seq![],
            }
        } else {
            join(ls, seq!['\n'])
        }
    }
}

/// Where no short-circuit applies and no line is left, the filter returns its
/// empty-output text, or nothing where it has none.
pub proof fn law_user_on_empty(def: UserCommandFilter, output: Seq<char>)
    requires
        !(def.match_output matches Some(mo) && contains(output, mo.pattern@) && !(
        mo.unless_pattern matches Some(u) && contains(output, u@))),
        user_lines(def, output).len() == 0,
    ensures
        user_result(def, output) == match def.on_empty {
            Some(e) => e@,
            None => Seq::<char>::empty(),
        },
{
}

/// Where the short-circuit's pattern does not occur in the output, or its
/// `unless_pattern` does, the filter returns what it would without a short-circuit.
pub proof fn law_user_no_short_circuit(def: UserCommandFilter, output: Seq<char>)
    requires
        def.match_output is Some,
        !contains(output, def.match_output.unwrap().pattern@) || (def.match_output.unwrap().unless_pattern matches Some(u) && contains(output, u@)),
    ensures
        user_result(def, output) == user_result(
            (UserCommandFilter {
                strip_lines_matching: def.strip_lines_matching,
                keep_lines_matching: def.keep_lines_matching,
                match_output: None,
                on_empty: def.on_empty,
                max_lines: def.max_lines,
            }),
            output,
        ),
{
}

/// Where the output contains the short-circuit's pattern and not its `unless_pattern`,
/// the filter returns the short-circuit's message, whatever else is configured.
pub proof fn law_user_short_circuit(def: UserCommandFilter, output: Seq<char>)
    requires
        def.match_output is Some,
        contains(output, def.match_output.unwrap().pattern@),
        !(def.match_output.unwrap().unless_pattern matches Some(u) && contains(output, u@)),
    ensures
        user_result(def, output) == def.match_output.unwrap().message@,
{
}


fn matches_any_exec(l: &Vec<char>, pats: &Vec<Vec<char>>) -> (r: bool)
    ensures
        r == matches_any(l@, views(pats@)),
{
    let mut i: usize = 0;
    while i < pats.len()
        invariant
            i <= pats.len(),
            forall|k: int| 0 <= k < i ==> !contains(l@, #[trigger] views(pats@)[k]),
        decreases pats.len() - i,
    {
        assert(views(pats@)[i as int] == pats@[i as int]@);
        if contains_chars(l, &pats[i]) {
            return true;
        }
        i += 1;
    }
    false
}

/// The lines of `ls` that hold one of `pats` (`want`), or none of them.
fn filter_by_patterns(ls: &Vec<Vec<char>>, pats: &Vec<Vec<char>>, want: bool) -> (r: Vec<Vec<char>>)
    ensures
        want ==> views(r@) == views(ls@).filter(holds_any(views(pats@))),
        !want ==> views(r@) == views(ls@).filter(holds_none(views(pats@))),
{
    let ghost pv = views(pats@);
    let ghost pred = if want {
        holds_any(pv)
    } else {
        holds_none(pv)
    };
    let mut kept: Vec<Vec<char>> = Vec::new();
    let mut i: usize = 0;
    while i < ls.len()
        invariant
            i <= ls.len(),
            pv == views(pats@),
            pred == (if want {
                holds_any(pv)
            } else {
                holds_none(pv)
            }),
            views(kept@) == views(ls@).take(i as int).filter(pred),
        decreases ls.len() - i,
    {
        let ghost old_kept = kept@;
        let m = matches_any_exec(&ls[i], pats);
        let keep = m == want;
        if keep {
            kept.push(copy_chars(&ls[i]));
        }
        proof {
            reveal(Seq::filter);
            assert(views(ls@).take(i + 1).drop_last() =~= views(ls@).take(i as int));
            assert(views(ls@)[i as int] == ls@[i as int]@);
            assert(views(ls@).take(i + 1).last() == views(ls@)[i as int]);
            assert(keep == pred(views(ls@)[i as int]));
            if keep {
                lemma_views_push(old_kept, kept@.last());
            }
        }
        i += 1;
    }
    assert(views(ls@).take(ls.len() as int) =~= views(ls@));
    kept
}

fn strings_chars(v: &Vec<String>) -> (r: Vec<Vec<char>>)
    ensures
        views(r@) == arg_views(v@),
{
    crate::text::args_chars(v.as_slice())
}

impl UserFilterHandler {
    /// Applies the user's filter: its short-circuit, then its strip, keep and limit steps.
    pub fn filter(&self, output: &str, _args: &[String]) -> (r: String)
        ensures
            r@ == user_result(self.filter_def, output@),
    {
        let def = &self.filter_def;
        let out_chars = to_chars(output);
        if let Some(mo) = &def.match_output {
            let pat = to_chars(mo.pattern.as_str());
            let pattern_matches = contains_chars(&out_chars, &pat);
            let unless_blocks = match &mo.unless_pattern {
                Some(p) => {
                    let pc = to_chars(p.as_str());
                    contains_chars(&out_chars, &pc)
                },
                None => false,
            };
            if pattern_matches && !unless_blocks {
                return mo.message.clone();
            }
        }
        let ls = lines_of(output);
        let strip = strings_chars(&def.strip_lines_matching);
        let stripped = filter_by_patterns(&ls, &strip, false);
        let keep = strings_chars(&def.keep_lines_matching);
        let ghost kv = views(keep@);
        assert(kv.len() == keep.len());
        let kept = if keep.len() > 0 {
            filter_by_patterns(&stripped, &keep, true)
        } else {
            stripped
        };
        let mut lines_left = kept;
        if let Some(max) = def.max_lines {
            lines_left.truncate(max);
            proof {
                assert(views(lines_left@) =~= if views(kept@).len() > max {
                    views(kept@).take(max as int)
                } else {
                    views(kept@)
                });
            }
        }
        assert(views(lines_left@) == user_lines(*def, output@));
        assert(views(lines_left@).len() == lines_left.len());
        if lines_left.len() == 0 {
            return match &def.on_empty {
                Some(e) => e.clone(),
                None => String::new(),
            };
        }
        join_newline(&lines_left)
    }
}


/// The user's filters for all commands; a later entry for a command replaces an
/// earlier one.
pub struct UserFiltersFile {
    pub commands: Vec<(String, UserCommandFilter)>,
}

/// The filter that each command ends up with: entries later in `s` win.
pub open spec fn command_map(s: Seq<(String, UserCommandFilter)>) -> Map<Seq<char>, UserCommandFilter>
    decreases s.len(),
{
    if s.len() == 0 {
        Map::empty()
    } else {
        command_map(s.drop_last()).insert(s.last().0@, s.last().1)
    }
}

/// Entries of `t` after those of `s` win over them.
pub proof fn lemma_command_map_concat(s: Seq<(String, UserCommandFilter)>, t: Seq<(String, UserCommandFilter)>)
    ensures
        command_map(s + t) == command_map(s).union_prefer_right(command_map(t)),
    decreases t.len(),
{
    if t.len() == 0 {
        assert(s + t =~= s);
        assert(command_map(s).union_prefer_right(command_map(t)) =~= command_map(s));
    } else {
        lemma_command_map_concat(s, t.drop_last());
        assert((s + t).drop_last() =~= s + t.drop_last());
        assert((s + t).last() == t.last());
        assert(command_map(s + t) =~= command_map(s).union_prefer_right(command_map(t)));
    }
}

impl Default for UserFiltersFile {
    fn default() -> (r: Self)
        ensures
            r.commands@.len() == 0,
    {
        UserFiltersFile { commands: Vec::new() }
    }
}

impl UserFiltersFile {
    /// The filter of each command.
    pub open spec fn filters(&self) -> Map<Seq<char>, UserCommandFilter> {
        command_map(self.commands@)
    }

    /// Sets the filter of command `key`, replacing any earlier one.
    pub fn insert(&mut self, key: String, value: UserCommandFilter)
        ensures
            final(self).filters() == old(self).filters().insert(key@, value),
    {
        let ghost old_commands = self.commands@;
        self.commands.push((key, value));
        proof {
            assert(self.commands@.drop_last() =~= old_commands);
        }
    }

    /// The filter of command `key`, if there is one.
    pub fn get(&self, key: &str) -> (r: Option<&UserCommandFilter>)
        ensures
            r matches Some(v) ==> self.filters().contains_key(key@) && self.filters()[key@] == *v,
            r is None ==> !self.filters().contains_key(key@),
    {
        let k = to_chars(key);
        let mut j: usize = self.commands.len();
        assert(self.commands@.take(j as int) =~= self.commands@);
        while j > 0
            invariant
                j <= self.commands.len(),
                k@ == key@,
                self.filters().contains_key(key@) == command_map(self.commands@.take(j as int)).contains_key(key@),
                self.filters().contains_key(key@) ==> self.filters()[key@] == command_map(self.commands@.take(j as int))[key@],
            decreases j,
        {
            let ghost t = self.commands@.take(j as int);
            assert(t.drop_last() =~= self.commands@.take(j - 1));
            assert(t.last() == self.commands@[j - 1]);
            let name = to_chars(self.commands[j - 1].0.as_str());
            assert(command_map(t) == command_map(t.drop_last()).insert(t.last().0@, t.last().1));
            assert(name@ == t.last().0@);
            if crate::text::eq_chars_exec(&name, &k) {
                assert(t.last().0@ == key@);
                assert(command_map(t).contains_key(key@));
                assert(command_map(t)[key@] == t.last().1);
                return Some(&self.commands[j - 1].1);
            }
            assert(t.last().0@ != key@);
            j -= 1;
        }
        None
    }

    /// Adds all filters of `other`, which win over those already here.
    pub fn merge(&mut self, other: UserFiltersFile)
        ensures
            final(self).filters() == old(self).filters().union_prefer_right(other.filters()),
    {
        let ghost start = self.commands@;
        let ghost theirs = other.commands@;
        let mut rest = other.commands;
        assert(theirs.len() == rest.len());
        let mut i: usize = 0;
        assert(theirs.skip(0) =~= theirs);
        while rest.len() > 0
            invariant
                i + rest.len() == theirs.len(),
                theirs.len() <= usize::MAX,
                rest@ == theirs.skip(i as int),
                self.commands@ == start + theirs.take(i as int),
            decreases rest.len(),
        {
            let e = rest.remove(0);
            proof {
                assert(e == theirs[i as int]);
                assert(rest@ =~= theirs.skip(i + 1));
            }
            self.commands.push(e);
            i += 1;
            proof {
                assert(self.commands@ =~= start + theirs.take(i as int));
            }
        }
        proof {
            assert(theirs.take(i as int) =~= theirs);
            lemma_command_map_concat(start, theirs);
        }
    }
}

} // verus!
