//! Whitespace normalisation for node labels.
//!
//! A whitespace run that touches one of the sticky punctuation bytes
//! `( ) [ ] ! . , ;` on either side is deleted outright. Afterwards the text
//! `vec! [` is mended to `vec![`, and every `+ ` is widened to ` + `, each by
//! a plain left-to-right, non-overlapping replacement.

use vstd::prelude::*;

verus! {

/// Whitespace, as the label cleaner understands it.
pub open spec fn is_ws(b: u8) -> bool {
    b == (' ' as u8) || b == ('\t' as u8) || b == ('\n' as u8) || b == ('\r' as u8)
}

/// The punctuation bytes that attract and swallow neighbouring whitespace.
pub open spec fn is_sticky(b: u8) -> bool {
    b == ('(' as u8) || b == (')' as u8) || b == ('[' as u8) || b == (']' as u8) || b == (
    '!' as u8) || b == ('.' as u8) || b == (',' as u8) || b == (';' as u8)
}

/// Whether the whitespace character at `i` reaches a sticky byte through
/// whitespace on its left.
pub open spec fn ws_left_sticky(s: Seq<u8>, i: int) -> bool {
    exists|l: int|
        #![trigger s[l - 1]]
        0 < l <= i && is_sticky(s[l - 1]) && (forall|k: int| l <= k <= i ==> is_ws(#[trigger] s[k]))
}

/// Whether the whitespace character at `i` reaches a sticky byte through
/// whitespace on its right.
pub open spec fn ws_right_sticky(s: Seq<u8>, i: int) -> bool {
    exists|r: int|
        #![trigger s[r + 1]]
        i <= r < s.len() - 1 && is_sticky(s[r + 1]) && (forall|k: int|
            i <= k <= r ==> is_ws(#[trigger] s[k]))
}

/// Whether the character at `i` is dropped by the cleanup.
pub open spec fn dropped_at(s: Seq<u8>, i: int) -> bool {
    is_ws(s[i]) && (ws_left_sticky(s, i) || ws_right_sticky(s, i))
}

/// The kept characters among the first `i`, in order.
pub open spec fn kept_prefix(s: Seq<u8>, i: int) -> Seq<u8>
    decreases i,
{
    if i <= 0 {
        Seq::empty()
    } else {
        kept_prefix(s, i - 1) + (if dropped_at(s, i - 1) {
            Seq::<u8>::empty()
        } else {
            seq![s[i - 1]]
        })
    }
}

/// The text after whitespace-stripping.
pub open spec fn stripped(s: Seq<u8>) -> Seq<u8> {
    kept_prefix(s, s.len() as int)
}

/// A left-to-right, non-overlapping replacement of `pat` by `rep`.
pub open spec fn replace_seq(s: Seq<u8>, pat: Seq<u8>, rep: Seq<u8>) -> Seq<u8>
    decreases s.len(),
{
    if s.len() == 0 {
        Seq::empty()
    } else if 0 < pat.len() <= s.len() && s.take(pat.len() as int) == pat {
        rep + replace_seq(s.skip(pat.len() as int), pat, rep)
    } else {
        seq![s[0]] + replace_seq(s.drop_first(), pat, rep)
    }
}

/// The spelling of `vec! [`.
pub open spec fn vec_pat() -> Seq<u8> {
    seq![('v' as u8), ('e' as u8), ('c' as u8), ('!' as u8), (' ' as u8), ('[' as u8)]
}

/// The spelling of `vec![`.
pub open spec fn vec_rep() -> Seq<u8> {
    seq![('v' as u8), ('e' as u8), ('c' as u8), ('!' as u8), ('[' as u8)]
}

/// The spelling of `+ `.
pub open spec fn plus_pat() -> Seq<u8> {
    seq![('+' as u8), (' ' as u8)]
}

/// The spelling of ` + `.
pub open spec fn plus_rep() -> Seq<u8> {
    seq![(' ' as u8), ('+' as u8), (' ' as u8)]
}

/// What `clean_up_formatting` returns: whitespace-stripping, then the two
/// special-case replacements.
pub open spec fn cleaned_text(s: Seq<u8>) -> Seq<u8> {
    replace_seq(replace_seq(stripped(s), vec_pat(), vec_rep()), plus_pat(), plus_rep())
}

fn is_ws_exec(b: u8) -> (r: bool)
    ensures
        r == is_ws(b),
{
    b == (' ' as u8) || b == ('\t' as u8) || b == ('\n' as u8) || b == ('\r' as u8)
}

fn is_sticky_exec(b: u8) -> (r: bool)
    ensures
        r == is_sticky(b),
{
    b == ('(' as u8) || b == (')' as u8) || b == ('[' as u8) || b == (']' as u8) || b == (
    '!' as u8) || b == ('.' as u8) || b == (',' as u8) || b == (';' as u8)
}

/// Strips every whitespace run that touches a sticky byte.
fn strip_ws(s: &[u8]) -> (r: Vec<u8>)
    ensures
        r@ == stripped(s@),
{
    let mut out: Vec<u8> = Vec::new();
    let mut i: usize = 0;
    proof {
        assert(kept_prefix(s@, 0) =~= Seq::<u8>::empty());
    }
    while i < s.len()
        invariant
            0 <= i <= s@.len(),
            out@ == kept_prefix(s@, i as int),
            i < s@.len() ==> (i == 0 || !is_ws(s@[i as int - 1]) || !is_ws(s@[i as int])),
        decreases s@.len() - i,
    {
        if !is_ws_exec(s[i]) {
            out.push(s[i]);
            proof {
                assert(kept_prefix(s@, i as int + 1) =~= out@);
            }
            i += 1;
        } else {
            // find the end of the maximal whitespace run
            let run_start = i;
            let mut j = i;
            while j < s.len() && is_ws_exec(s[j])
                invariant
                    run_start <= j <= s@.len(),
                    forall|k: int| run_start <= k < j ==> is_ws(#[trigger] s@[k]),
                decreases s@.len() - j,
            {
                j += 1;
            }
            let left_sticky = run_start > 0 && is_sticky_exec(s[run_start - 1]);
            let right_sticky = j < s.len() && is_sticky_exec(s[j]);
            proof {
                assert(run_start == 0 || !is_ws(s@[run_start as int - 1]));
                assert(j == s@.len() || !is_ws(s@[j as int]));
                assert forall|k: int| run_start <= k < j implies dropped_at(s@, k) == (
                left_sticky || right_sticky) by {
                    lemma_run_dropped(
                        s@,
                        run_start as int,
                        j as int,
                        k,
                        left_sticky,
                        right_sticky,
                    );
                }
            }
            if left_sticky || right_sticky {
                // the whole run is dropped
                let ghost out0 = out@;
                proof {
                    lemma_kept_prefix_run(s@, run_start as int, j as int, true, out0);
                }
                i = j;
            } else {
                // the whole run is kept
                let ghost out0 = out@;
                let mut k = run_start;
                while k < j
                    invariant
                        run_start <= k <= j <= s@.len(),
                        out@ == kept_prefix(s@, k as int),
                        forall|p: int| run_start <= p < j ==> !dropped_at(s@, p),
                        forall|p: int| run_start <= p < j ==> is_ws(#[trigger] s@[p]),
                    decreases j - k,
                {
                    out.push(s[k]);
                    proof {
                        assert(kept_prefix(s@, k as int + 1) =~= out@);
                    }
                    k += 1;
                }
                i = j;
            }
        }
    }
    out
}

/// Inside one maximal whitespace run, a character is dropped exactly when the
/// run touches a sticky byte.
proof fn lemma_run_dropped(
    s: Seq<u8>,
    run_start: int,
    run_end: int,
    k: int,
    left_sticky: bool,
    right_sticky: bool,
)
    requires
        0 <= run_start <= k < run_end <= s.len(),
        forall|p: int| run_start <= p < run_end ==> is_ws(#[trigger] s[p]),
        run_start == 0 || !is_ws(s[run_start - 1]),
        run_end == s.len() || !is_ws(s[run_end as int]),
        left_sticky == (run_start > 0 && is_sticky(s[run_start - 1])),
        right_sticky == (run_end < s.len() && is_sticky(s[run_end as int])),
    ensures
        dropped_at(s, k) == (left_sticky || right_sticky),
{
    if left_sticky {
        assert(ws_left_sticky(s, k)) by {
            assert(0 < run_start <= k && is_sticky(s[run_start - 1]) && (forall|p: int|
                run_start <= p <= k ==> is_ws(#[trigger] s[p])));
        }
    }
    if right_sticky {
        assert(ws_right_sticky(s, k)) by {
            assert(k <= run_end - 1 < s.len() - 1 && is_sticky(s[run_end - 1 + 1]) && (forall|
                p: int,
            | k <= p <= run_end - 1 ==> is_ws(#[trigger] s[p])));
        }
    }
    if !left_sticky && !right_sticky {
        if ws_left_sticky(s, k) {
            let l = choose|l: int|
                #![trigger s[l - 1]]
                0 < l <= k && is_sticky(s[l - 1]) && (forall|p: int|
                    l <= p <= k ==> is_ws(#[trigger] s[p]));
            // a sticky byte is never whitespace, so l - 1 lies left of the run
            assert(!is_ws(s[l - 1]));
            if l - 1 >= run_start {
                assert(is_ws(s[l - 1]));
            }
            assert(l - 1 < run_start);
            if l - 1 < run_start - 1 {
                assert(is_ws(s[run_start - 1]));
            }
            assert(l - 1 == run_start - 1);
            assert(left_sticky);
        }
        if ws_right_sticky(s, k) {
            let r = choose|r: int|
                #![trigger s[r + 1]]
                k <= r < s.len() - 1 && is_sticky(s[r + 1]) && (forall|p: int|
                    k <= p <= r ==> is_ws(#[trigger] s[p]));
            assert(!is_ws(s[r + 1]));
            if r + 1 < run_end {
                assert(is_ws(s[r + 1]));
            }
            if r + 1 > run_end {
                assert(is_ws(s[run_end]));
            }
            assert(r + 1 == run_end);
            assert(right_sticky);
        }
    }
}

/// Skipping over a dropped run leaves the kept prefix unchanged.
proof fn lemma_kept_prefix_run(s: Seq<u8>, run_start: int, run_end: int, all_dropped: bool, o: Seq<
    u8,
>)
    requires
        0 <= run_start <= run_end <= s.len(),
        forall|p: int| run_start <= p < run_end ==> dropped_at(s, p),
        o == kept_prefix(s, run_start),
    ensures
        kept_prefix(s, run_end) == o,
    decreases run_end - run_start,
{
    if run_start < run_end {
        assert(kept_prefix(s, run_start + 1) =~= o);
        lemma_kept_prefix_run(s, run_start + 1, run_end, all_dropped, o);
    }
}

/// Whether `pat` occurs in `s` at position `i`.
fn match_at(s: &[u8], i: usize, pat: &[u8]) -> (r: bool)
    requires
        i <= s@.len(),
    ensures
        r == (i + pat@.len() <= s@.len() && s@.skip(i as int).take(pat@.len() as int) == pat@),
{
    if pat.len() > s.len() - i {
        proof {
            assert(i + pat@.len() > s@.len());
        }
        return false;
    }
    let n = s.len();
    let mut k: usize = 0;
    while k < pat.len()
        invariant
            0 <= k <= pat@.len(),
            n == s@.len(),
            i + pat@.len() <= n,
            forall|p: int| 0 <= p < k ==> s@[i + p] == pat@[p],
        decreases pat@.len() - k,
    {
        if s[i + k] != pat[k] {
            proof {
                assert(s@.skip(i as int).take(pat@.len() as int)[k as int] != pat@[k as int]);
            }
            return false;
        }
        k += 1;
    }
    proof {
        assert(s@.skip(i as int).take(pat@.len() as int) =~= pat@);
    }
    true
}

/// Left-to-right, non-overlapping replacement of `pat` by `rep`.
#[verifier::rlimit(50)]
fn replace_bytes(s: &[u8], pat: &[u8], rep: &[u8]) -> (r: Vec<u8>)
    requires
        pat@.len() > 0,
    ensures
        r@ == replace_seq(s@, pat@, rep@),
{
    let mut out: Vec<u8> = Vec::new();
    let mut i: usize = 0;
    proof {
        assert(s@.skip(0) =~= s@);
        assert(Seq::<u8>::empty() + replace_seq(s@, pat@, rep@) =~= replace_seq(s@, pat@, rep@));
    }
    while i < s.len()
        invariant
            0 <= i <= s@.len(),
            pat@.len() > 0,
            out@ + replace_seq(s@.skip(i as int), pat@, rep@) == replace_seq(s@, pat@, rep@),
        decreases s@.len() - i,
    {
        let ghost tail = s@.skip(i as int);
        if match_at(s, i, pat) {
            let ghost out0 = out@;
            let mut k: usize = 0;
            while k < rep.len()
                invariant
                    0 <= k <= rep@.len(),
                    out@ == out0 + rep@.take(k as int),
                decreases rep@.len() - k,
            {
                out.push(rep[k]);
                proof {
                    assert(out0 + rep@.take(k as int + 1) =~= (out0 + rep@.take(k as int)).push(
                        rep@[k as int],
                    ));
                }
                k += 1;
            }
            proof {
                assert(out@ =~= out0 + rep@) by {
                    assert(rep@.take(rep@.len() as int) =~= rep@);
                }
            }
            proof {
                assert(tail.take(pat@.len() as int) == pat@);
                assert(tail.len() >= pat@.len());
                assert(replace_seq(tail, pat@, rep@) == rep@ + replace_seq(
                    tail.skip(pat@.len() as int),
                    pat@,
                    rep@,
                ));
                assert(tail.skip(pat@.len() as int) =~= s@.skip(i as int + pat@.len() as int));
            }
            i = i + pat.len();
            proof {
                assert(out@ + replace_seq(s@.skip(i as int), pat@, rep@) =~= replace_seq(
                    s@,
                    pat@,
                    rep@,
                ));
            }
        } else {
            out.push(s[i]);
            proof {
                assert(tail.len() > 0);
                assert(!(0 < pat@.len() <= tail.len() && tail.take(pat@.len() as int) == pat@))
                    by {
                    if 0 < pat@.len() <= tail.len() && tail.take(pat@.len() as int) == pat@ {
                        assert(i + pat@.len() <= s@.len());
                    }
                }
                assert(replace_seq(tail, pat@, rep@) == seq![tail[0]] + replace_seq(
                    tail.drop_first(),
                    pat@,
                    rep@,
                ));
                assert(tail[0] == s@[i as int]);
                assert(tail.drop_first() =~= s@.skip(i as int + 1));
            }
            i += 1;
            proof {
                assert(out@ + replace_seq(s@.skip(i as int), pat@, rep@) =~= replace_seq(
                    s@,
                    pat@,
                    rep@,
                ));
            }
        }
    }
    proof {
        assert(s@.skip(s@.len() as int) =~= Seq::<u8>::empty());
        assert(out@ + Seq::<u8>::empty() =~= out@);
    }
    out
}

/// Normalises a label: whitespace runs touching `( ) [ ] ! . , ;` are
/// removed, then `vec! [` becomes `vec![` and `+ ` becomes ` + `.
pub fn clean_up_formatting(input: &[u8]) -> (r: Vec<u8>)
    ensures
        r@ == cleaned_text(input@),
{
    let stripped_v = strip_ws(input);
    let mut vp: Vec<u8> = Vec::new();
    vp.push(('v' as u8));
    vp.push(('e' as u8));
    vp.push(('c' as u8));
    vp.push(('!' as u8));
    vp.push((' ' as u8));
    vp.push(('[' as u8));
    let mut vr: Vec<u8> = Vec::new();
    vr.push(('v' as u8));
    vr.push(('e' as u8));
    vr.push(('c' as u8));
    vr.push(('!' as u8));
    vr.push(('[' as u8));
    let mut pp: Vec<u8> = Vec::new();
    pp.push(('+' as u8));
    pp.push((' ' as u8));
    let mut pr: Vec<u8> = Vec::new();
    pr.push((' ' as u8));
    pr.push(('+' as u8));
    pr.push((' ' as u8));
    proof {
        assert(vp@ =~= vec_pat());
        assert(vr@ =~= vec_rep());
        assert(pp@ =~= plus_pat());
        assert(pr@ =~= plus_rep());
    }
    let pass1 = replace_bytes(stripped_v.as_slice(), vp.as_slice(), vr.as_slice());
    replace_bytes(pass1.as_slice(), pp.as_slice(), pr.as_slice())
}

} // verus!
