use vstd::prelude::*;

use crate::text::{
    append_chars, append_str, arg_views, contains, contains_str, copy_args, copy_chars, decimal,
    decimal_chars, eq_str, join, join_newline, lemma_arg_views_push, lemma_views_push, lines,
    lines_of, starts_with, starts_with_str, string_of, to_chars, views, ends_with,
    lemma_join_ends_with, lemma_join_prefix,
};

verus! {

/// Output filter for `tree`.
pub struct TreeHandler;

/// An argument by which the user already chose what to ignore or to show.
pub open spec fn is_ignore_arg(a: Seq<char>) -> bool {
    a == "-I"@ || starts_with(a, "-I"@) || a == "--gitignore"@ || a == "-a"@
}

/// The directories that `tree` is told to ignore.
pub open spec fn ignore_list() -> Seq<char> {
    "node_modules|.git|target|__pycache__|.next|dist|build|.cache|.venv|venv"@
}

/// What `rewrite_args` gives for `tree`: `-I` with the ignore list added, unless the
/// user gave an ignore or show-all argument.
pub open spec fn tree_rewrite(args: Seq<Seq<char>>) -> Seq<Seq<char>> {
    if exists|i: int| 0 <= i < args.len() && #[trigger] is_ignore_arg(args[i]) {
        args
    } else {
        args.push("-I"@).push(ignore_list())
    }
}

/// `tree` gets `-I` with the list of build and dependency directories added exactly
/// where no argument is `-I...`, `--gitignore` or `-a`.
pub proof fn law_tree_rewrite_adds_ignore(args: Seq<Seq<char>>)
    ensures
        ({
            let given = exists|i: int|
                0 <= i < args.len() && {
                    let a = #[trigger] args[i];
                    (a.len() >= 2 && a.take(2) == "-I"@) || a == "--gitignore"@ || a == "-a"@
                };
            &&& !given ==> tree_rewrite(args) == args.push("-I"@).push(
                "node_modules|.git|target|__pycache__|.next|dist|build|.cache|.venv|venv"@,
            )
            &&& given ==> tree_rewrite(args) == args
        }),
{
    reveal_strlit("-I");
    assert("-I"@.len() == 2);
    assert forall|i: int| 0 <= i < args.len() implies is_ignore_arg(#[trigger] args[i]) == {
        let a = args[i];
        (a.len() >= 2 && a.take(2) == "-I"@) || a == "--gitignore"@ || a == "-a"@
    } by {
        let a = args[i];
        if a == "-I"@ {
            assert(a.take(2) =~= a);
        }
    }
}

/// Rewriting a `tree` command line only ever appends to it, and rewriting the result
/// again changes nothing.
pub proof fn law_tree_rewrite_idempotent(args: Seq<Seq<char>>)
    ensures
        tree_rewrite(args).take(args.len() as int) == args,
        tree_rewrite(tree_rewrite(args)) == tree_rewrite(args),
{
    let r = tree_rewrite(args);
    if r != args {
        reveal_strlit("-I");
        assert(r[args.len() as int] == "-I"@);
        assert(is_ignore_arg(r[args.len() as int]));
    }
    assert(r.take(args.len() as int) =~= args);
}

/// The summary line of `tree`, such as `3 directories, 12 files`.
pub open spec fn is_tree_summary(l: Seq<char>) -> bool {
    contains(l, "director"@) && contains(l, "file"@)
}

/// The last summary line of `ls`, if any.
pub open spec fn last_summary(ls: Seq<Seq<char>>) -> Option<Seq<char>>
    decreases ls.len(),
{
    if ls.len() == 0 {
        None
    } else if is_tree_summary(ls.last()) {
        Some(ls.last())
    } else {
        last_summary(ls.drop_last())
    }
}

/// What `TreeHandler::filter` returns: short output as it is; else the first 25 lines,
/// a count of the rest and the summary line.
pub open spec fn tree_result(output: Seq<char>) -> Seq<char> {
    let ls = lines(output);
    if ls.len() <= 30 {
        output
    } else {
        let summary = last_summary(ls);
        let remaining = (ls.len() - 25) as nat;
        let extra = if summary is Some {
            (remaining - 1) as nat
        } else {
            remaining
        };
        let marker = "[... "@ + decimal(extra) + " more entries]"@;
        join(
            ls.take(25) + seq![marker] + match summary {
                Some(s) => seq![s],
                None => seq![],
            },
            seq!['\n'],
        )
    }
}

proof fn lemma_last_summary(ls: Seq<Seq<char>>, j: int)
    requires
        0 <= j < ls.len(),
        is_tree_summary(ls[j]),
        forall|m: int| j < m < ls.len() ==> !is_tree_summary(#[trigger] ls[m]),
    ensures
        last_summary(ls) == Some(ls[j]),
    decreases ls.len(),
{
    if j < ls.len() - 1 {
        assert(!is_tree_summary(ls[ls.len() - 1]));
        assert forall|m: int| j < m < ls.drop_last().len() implies !is_tree_summary(
            #[trigger] ls.drop_last()[m],
        ) by {
            assert(ls.drop_last()[m] == ls[m]);
        }
        assert(ls.drop_last()[j] == ls[j]);
        lemma_last_summary(ls.drop_last(), j);
    }
}

/// `tree` output of at most 30 lines comes back unchanged.
pub proof fn law_tree_short_unchanged(output: Seq<char>)
    requires
        lines(output).len() <= 30,
    ensures
        tree_result(output) == output,
{
}

/// Longer `tree` output keeps its first 25 lines, then a line counting the rest; where a
/// line mentions both "director" and "file", it ends with the last such line.
pub proof fn law_tree_long(output: Seq<char>, j: int)
    requires
        lines(output).len() > 30,
    ensures
        starts_with(tree_result(output), join(lines(output).take(25), seq!['\n']) + "\n[... "@),
        (0 <= j < lines(output).len() && contains(lines(output)[j], "director"@) && contains(
            lines(output)[j],
            "file"@,
        ) && forall|m: int|
            j < m < lines(output).len() ==> !(contains(#[trigger] lines(output)[m], "director"@)
                && contains(lines(output)[m], "file"@))) ==> ends_with(
            tree_result(output),
            lines(output)[j],
        ),
{
    let ls = lines(output);
    let summary = last_summary(ls);
    let remaining = (ls.len() - 25) as nat;
    let extra = if summary is Some {
        (remaining - 1) as nat
    } else {
        remaining
    };
    let marker = "[... "@ + decimal(extra) + " more entries]"@;
    let all = ls.take(25) + seq![marker] + match summary {
        Some(s) => seq![s],
        None => seq![],
    };
    assert(tree_result(output) == join(all, seq!['\n']));
    lemma_join_prefix(all, seq!['\n'], 26);
    let first = all.take(26);
    assert(first.drop_last() =~= ls.take(25));
    assert(first.last() == marker);
    assert(join(first, seq!['\n']) == join(ls.take(25), seq!['\n']) + seq!['\n'] + marker);
    reveal_strlit("[... ");
    reveal_strlit("\n[... ");
    let want = join(ls.take(25), seq!['\n']) + "\n[... "@;
    let got = join(first, seq!['\n']);
    assert(got.take(want.len() as int) =~= want);
    let r = tree_result(output);
    assert(r.take(got.len() as int) == got);
    assert(r.take(want.len() as int) =~= want);
    if 0 <= j < ls.len() && contains(ls[j], "director"@) && contains(ls[j], "file"@) && forall|m: int|
        j < m < ls.len() ==> !(contains(#[trigger] ls[m], "director"@) && contains(ls[m], "file"@)) {
        lemma_last_summary(ls, j);
        assert(all.last() == ls[j]);
        lemma_join_ends_with(all, seq!['\n']);
    }
}

fn is_ignore_arg_exec(a: &Vec<char>) -> (r: bool)
    ensures
        r == is_ignore_arg(a@),
{
    eq_str(a, "-I") || starts_with_str(a, "-I") || eq_str(a, "--gitignore") || eq_str(a, "-a")
}

fn last_summary_exec(ls: &Vec<Vec<char>>) -> (r: Option<Vec<char>>)
    ensures
        r matches Some(x) ==> last_summary(views(ls@)) == Some(x@),
        r is None ==> last_summary(views(ls@)) is None,
{
    let mut j: usize = ls.len();
    assert(views(ls@).take(ls.len() as int) =~= views(ls@));
    while j > 0
        invariant
            j <= ls.len(),
            last_summary(views(ls@)) == last_summary(views(ls@).take(j as int)),
        decreases j,
    {
        let ghost t = views(ls@).take(j as int);
        assert(t.last() == ls@[j - 1]@);
        assert(t.drop_last() =~= views(ls@).take(j - 1));
        if contains_str(&ls[j - 1], "director") && contains_str(&ls[j - 1], "file") {
            return Some(copy_chars(&ls[j - 1]));
        }
        j -= 1;
    }
    None
}

impl TreeHandler {
    /// Tells `tree` to ignore build and dependency directories, unless the user chose.
    pub fn rewrite_args(&self, args: &[String]) -> (r: Vec<String>)
        ensures
            arg_views(r@) == tree_rewrite(arg_views(args@)),
    {
        let mut present = false;
        let mut i: usize = 0;
        while i < args.len()
            invariant
                i <= args.len(),
                present == exists|k: int| 0 <= k < i && #[trigger] is_ignore_arg(arg_views(args@)[k]),
            decreases args.len() - i,
        {
            let a = to_chars(args[i].as_str());
            assert(a@ == arg_views(args@)[i as int]);
            if is_ignore_arg_exec(&a) {
                present = true;
            }
            i += 1;
        }
        let mut out = copy_args(args);
        if !present {
            let ghost o0 = out@;
            let a = string_of("-I");
            out.push(a);
            let ghost o1 = out@;
            let b = string_of("node_modules|.git|target|__pycache__|.next|dist|build|.cache|.venv|venv");
            out.push(b);
            proof {
                lemma_arg_views_push(o0, a);
                lemma_arg_views_push(o1, b);
            }
        }
        out
    }

    /// Shortens long `tree` output, keeping its summary line.
    pub fn filter(&self, output: &str, _args: &[String]) -> (r: String)
        ensures
            r@ == tree_result(output@),
    {
        let ls = lines_of(output);
        assert(views(ls@).len() == ls.len());
        if ls.len() <= 30 {
            return string_of(output);
        }
        let summary = last_summary_exec(&ls);
        let mut out: Vec<Vec<char>> = Vec::new();
        let mut k: usize = 0;
        while k < 25
            invariant
                k <= 25 < ls.len(),
                views(out@) == views(ls@).take(k as int),
            decreases 25 - k,
        {
            let ghost old = out@;
            let c = copy_chars(&ls[k]);
            out.push(c);
            proof {
                lemma_views_push(old, c);
                assert(views(out@) =~= views(ls@).take(k + 1));
            }
            k += 1;
        }
        let remaining = ls.len() - 25;
        let extra = if summary.is_some() {
            remaining - 1
        } else {
            remaining
        };
        let mut marker: Vec<char> = Vec::new();
        append_str(&mut marker, "[... ");
        let d = decimal_chars(extra);
        append_chars(&mut marker, &d);
        append_str(&mut marker, " more entries]");
        let ghost o = out@;
        out.push(marker);
        proof {
            lemma_views_push(o, marker);
        }
        proof {
            let sm = last_summary(views(ls@));
            let tail = match sm {
                Some(x) => seq![x],
                None => seq![],
            };
            let extra_s = if sm is Some {
                (((ls.len() - 25) as nat) - 1) as nat
            } else {
                (ls.len() - 25) as nat
            };
            assert(extra == extra_s);
        }
        match summary {
            Some(s) => {
                let ghost o2 = out@;
                out.push(s);
                proof {
                    lemma_views_push(o2, s);
                }
            },
            None => {
                assert(views(out@) =~= views(out@) + Seq::<Seq<char>>::empty());
            },
        }
        proof {
            let sm = last_summary(views(ls@));
            let tail = match sm {
                Some(x) => seq![x],
                None => seq![],
            };
            let extra_s = if sm is Some {
                (((ls.len() - 25) as nat) - 1) as nat
            } else {
                (ls.len() - 25) as nat
            };
            let marker_s = "[... "@ + decimal(extra_s) + " more entries]"@;
            assert(views(out@) =~= views(ls@).take(25) + seq![marker_s] + tail);
        }
        join_newline(&out)
    }
}

} // verus!
