//! Lexical normalization of TeX paths.
//!
//! A TeX path is a `/`-separated, Unicode-capable path string with no
//! symlink semantics. Normalization strips `.` segments, empty segments
//! and resolvable `..` segments purely lexically, without consulting any
//! real filesystem; ascending past a leading absolute root is the one
//! fatal case.

use vstd::prelude::*;
use vstd::string::*;

verus! {

/// The empty segment, produced by doubled or trailing separators.
pub open spec fn seg_empty() -> Seq<char> {
    Seq::<char>::empty()
}

/// The current-directory segment `.`.
pub open spec fn seg_dot() -> Seq<char> {
    seq!['.']
}

/// The parent-directory segment `..`.
pub open spec fn seg_dotdot() -> Seq<char> {
    seq!['.', '.']
}

/// A segment free of the separator character.
pub open spec fn sep_free(seg: Seq<char>) -> bool {
    forall|j: int| 0 <= j < seg.len() ==> seg[j] != '/'
}

/// The `/`-separated segments of a path string; a string with `n`
/// separators has `n + 1` segments, so the result is never empty.
pub open spec fn spec_split(s: Seq<char>) -> Seq<Seq<char>>
    decreases s.len(),
{
    if s.len() == 0 {
        seq![Seq::<char>::empty()]
    } else if s[0] == '/' {
        seq![Seq::<char>::empty()] + spec_split(s.skip(1))
    } else {
        let rest = spec_split(s.skip(1));
        seq![seq![s[0]] + rest[0]] + rest.skip(1)
    }
}

/// Segments joined by the separator character.
pub open spec fn spec_join(segs: Seq<Seq<char>>) -> Seq<char>
    decreases segs.len(),
{
    if segs.len() == 0 {
        Seq::<char>::empty()
    } else if segs.len() == 1 {
        segs[0]
    } else {
        segs[0] + seq!['/'] + spec_join(segs.skip(1))
    }
}

/// Splitting always yields at least one segment.
pub proof fn lemma_split_len(s: Seq<char>)
    ensures
        spec_split(s).len() >= 1,
    decreases s.len(),
{
    if s.len() != 0 {
        lemma_split_len(s.skip(1));
    }
}

/// A string without separators is a single segment.
pub proof fn lemma_split_no_sep(s: Seq<char>)
    requires
        sep_free(s),
    ensures
        spec_split(s) == seq![s],
    decreases s.len(),
{
    if s.len() == 0 {
        assert(spec_split(s) =~~= seq![s]);
    } else {
        assert(s[0] != '/');
        assert(sep_free(s.skip(1)));
        lemma_split_no_sep(s.skip(1));
        lemma_split_len(s.skip(1));
        let rest = spec_split(s.skip(1));
        assert(rest[0] == s.skip(1));
        assert(rest.skip(1) =~= Seq::<Seq<char>>::empty());
        assert(seq![s[0]] + rest[0] =~= s);
        assert(spec_split(s) =~= seq![s]);
    }
}

/// Splitting at the first separator: the text before it is the first
/// segment, and the rest splits on its own.
pub proof fn lemma_split_at_sep(s: Seq<char>, k: int)
    requires
        0 <= k < s.len(),
        s[k] == '/',
        forall|j: int| 0 <= j < k ==> s[j] != '/',
    ensures
        spec_split(s) == seq![s.take(k)] + spec_split(s.skip(k + 1)),
    decreases k,
{
    if k == 0 {
        assert(s.take(0) =~= Seq::<char>::empty());
    } else {
        assert(s[0] != '/');
        let t = s.skip(1);
        assert(t[k - 1] == '/');
        assert(forall|j: int| 0 <= j < k - 1 ==> t[j] != '/');
        lemma_split_at_sep(t, k - 1);
        lemma_split_len(t.skip(k));
        assert(t.take(k - 1) =~= s.take(k).skip(1));
        assert(t.skip(k) =~= s.skip(k + 1));
        let rest = spec_split(t);
        assert(rest == seq![t.take(k - 1)] + spec_split(t.skip(k)));
        assert(rest[0] == t.take(k - 1));
        assert(seq![s[0]] + rest[0] =~= s.take(k));
        assert(rest.skip(1) =~= spec_split(s.skip(k + 1)));
        assert(spec_split(s) =~= seq![s.take(k)] + spec_split(s.skip(k + 1)));
    }
}

/// Every segment a split produces is free of separators.
pub proof fn lemma_split_sep_free(s: Seq<char>)
    ensures
        forall|i: int| 0 <= i < spec_split(s).len() ==> sep_free(#[trigger] spec_split(s)[i]),
    decreases s.len(),
{
    if s.len() == 0 {
    } else if s[0] == '/' {
        lemma_split_sep_free(s.skip(1));
        assert forall|i: int| 0 <= i < spec_split(s).len() implies sep_free(
            #[trigger] spec_split(s)[i],
        ) by {
            if i > 0 {
                assert(spec_split(s)[i] == spec_split(s.skip(1))[i - 1]);
            }
        }
    } else {
        lemma_split_sep_free(s.skip(1));
        lemma_split_len(s.skip(1));
        let rest = spec_split(s.skip(1));
        assert forall|i: int| 0 <= i < spec_split(s).len() implies sep_free(
            #[trigger] spec_split(s)[i],
        ) by {
            if i == 0 {
                assert(sep_free(rest[0]));
                assert(spec_split(s)[0] == seq![s[0]] + rest[0]);
            } else {
                assert(spec_split(s)[i] == rest[i]);
            }
        }
    }
}

/// Joining after appending one more segment appends a separator and it.
pub proof fn lemma_join_push(segs: Seq<Seq<char>>, x: Seq<char>)
    requires
        segs.len() >= 1,
    ensures
        spec_join(segs.push(x)) == spec_join(segs) + seq!['/'] + x,
    decreases segs.len(),
{
    if segs.len() == 1 {
        let p = segs.push(x);
        assert(p.len() == 2);
        assert(p.skip(1) =~= seq![x]);
        assert(spec_join(seq![x]) == x);
        assert(spec_join(p) == p[0] + seq!['/'] + spec_join(p.skip(1)));
        assert(spec_join(segs) == segs[0]);
    } else {
        assert(segs.push(x).skip(1) =~= segs.skip(1).push(x));
        lemma_join_push(segs.skip(1), x);
        assert(spec_join(segs.push(x)) =~= spec_join(segs) + seq!['/'] + x);
    }
}

/// Splitting a join of separator-free segments recovers the segments.
pub proof fn lemma_split_of_join(segs: Seq<Seq<char>>)
    requires
        segs.len() >= 1,
        forall|i: int| 0 <= i < segs.len() ==> sep_free(#[trigger] segs[i]),
    ensures
        spec_split(spec_join(segs)) == segs,
    decreases segs.len(),
{
    if segs.len() == 1 {
        lemma_split_no_sep(segs[0]);
        assert(seq![segs[0]] =~= segs);
    } else {
        let s = spec_join(segs);
        let k = segs[0].len() as int;
        assert(s == segs[0] + seq!['/'] + spec_join(segs.skip(1)));
        assert(s[k] == '/');
        assert(forall|j: int| 0 <= j < k ==> s[j] == segs[0][j] && s[j] != '/');
        lemma_split_at_sep(s, k);
        assert(s.take(k) =~= segs[0]);
        assert(s.skip(k + 1) =~= spec_join(segs.skip(1)));
        assert(forall|i: int|
            0 <= i < segs.skip(1).len() ==> sep_free(#[trigger] segs.skip(1)[i]));
        lemma_split_of_join(segs.skip(1));
        assert(spec_split(s) =~= segs);
    }
}

/// The state the normalizer carries while it walks the segments: whether a
/// leading absolute root was seen, how many unresolved leading `..` segments
/// survive literally, and the retained real components.
#[verifier::ext_equal]
pub ghost struct NormState {
    pub rooted: bool,
    pub parents: nat,
    pub comps: Seq<Seq<char>>,
}

/// One pass over the remaining segments. Empty and `.` segments are
/// dropped; `..` pops a retained component, fails against an absolute
/// root, or survives literally in an unrooted path; anything else is
/// retained verbatim.
pub open spec fn norm_segs(segs: Seq<Seq<char>>, st: NormState) -> Option<NormState>
    decreases segs.len(),
{
    if segs.len() == 0 {
        Some(st)
    } else {
        let seg = segs[0];
        if seg == seg_empty() || seg == seg_dot() {
            norm_segs(segs.skip(1), st)
        } else if seg == seg_dotdot() {
            if st.comps.len() > 0 {
                norm_segs(segs.skip(1), NormState { comps: st.comps.drop_last(), ..st })
            } else if st.rooted {
                None
            } else {
                norm_segs(segs.skip(1), NormState { parents: st.parents + 1, ..st })
            }
        } else {
            norm_segs(segs.skip(1), NormState { comps: st.comps.push(seg), ..st })
        }
    }
}

pub open spec fn init_state(rooted: bool) -> NormState {
    NormState { rooted, parents: 0, comps: Seq::empty() }
}

/// The normalizer state a non-empty path reaches, if it does not fail.
/// A leading empty segment marks an absolute root.
pub open spec fn spec_norm(s: Seq<char>) -> Option<NormState> {
    let segs = spec_split(s);
    if segs[0] == seg_empty() {
        norm_segs(segs.skip(1), init_state(true))
    } else {
        norm_segs(segs, init_state(false))
    }
}

/// The surviving `..` segments followed by the retained components.
pub open spec fn result_pieces(st: NormState) -> Seq<Seq<char>> {
    Seq::new(st.parents, |i: int| seg_dotdot()) + st.comps
}

/// Text of a final normalizer state: the pieces joined by `/`, prefixed
/// by the root; an empty joined result collapses to `/` or `.`.
pub open spec fn render(st: NormState) -> Seq<char> {
    let pieces = result_pieces(st);
    if pieces.len() == 0 {
        if st.rooted {
            seq!['/']
        } else {
            seq!['.']
        }
    } else if st.rooted {
        seq!['/'] + spec_join(pieces)
    } else {
        spec_join(pieces)
    }
}

/// What normalization returns: the empty path is its own distinct
/// sentinel, any other path renders its final state, and `None` marks an
/// attempt to ascend above an absolute root.
pub open spec fn spec_try_normalize(s: Seq<char>) -> Option<Seq<char>> {
    if s.len() == 0 {
        Some(Seq::<char>::empty())
    } else {
        match spec_norm(s) {
            Some(st) => Some(render(st)),
            None => None,
        }
    }
}

/// Splits a path string into its `/`-separated segments.
fn split_path(s: &str) -> (segs: Vec<String>)
    ensures
        segs.deep_view() == spec_split(s@),
        segs@.len() >= 1,
{
    let n = s.unicode_len();
    let mut segs: Vec<String> = Vec::new();
    let mut mark: usize = 0;
    let mut i: usize = 0;
    proof {
        assert(s@.skip(0) =~= s@);
    }
    while i < n
        invariant
            mark <= i <= n,
            n == s@.len(),
            forall|j: int| mark <= j < i ==> s@[j] != '/',
            spec_split(s@) == segs.deep_view() + spec_split(s@.skip(mark as int)),
        decreases n - i,
    {
        let c = s.get_char(i);
        if c == '/' {
            let ghost prev = segs.deep_view();
            let piece = String::from_str(s.substring_char(mark, i));
            segs.push(piece);
            proof {
                let t = s@.skip(mark as int);
                assert(t[i - mark] == '/');
                assert(forall|j: int| 0 <= j < i - mark ==> t[j] != '/');
                lemma_split_at_sep(t, i - mark);
                assert(t.take(i - mark) =~= piece@);
                assert(t.skip(i - mark + 1) =~= s@.skip(i + 1));
                assert(segs.deep_view() =~= prev.push(piece@));
                assert(spec_split(s@) =~= segs.deep_view() + spec_split(s@.skip(i + 1)));
            }
            mark = i + 1;
        }
        i += 1;
    }
    let ghost prev = segs.deep_view();
    let piece = String::from_str(s.substring_char(mark, n));
    segs.push(piece);
    proof {
        let t = s@.skip(mark as int);
        assert(sep_free(t));
        lemma_split_no_sep(t);
        assert(t =~= piece@);
        assert(segs.deep_view() =~= prev.push(piece@));
        assert(spec_split(s@) =~= segs.deep_view());
        lemma_split_len(s@);
    }
    segs
}

/// Normalize a TeX path by stripping `.`, resolvable `..` and extra `/`
/// separators, without touching any filesystem. Whitespace inside
/// segments is kept verbatim. Returns `None` exactly when the path tries
/// to ascend above a leading absolute root.
pub fn try_normalize_tex_path(path: &str) -> (r: Option<String>)
    ensures
        match r {
            Some(t) => spec_try_normalize(path@) == Some(t@),
            None => spec_try_normalize(path@) is None,
        },
{
    if path.unicode_len() == 0 {
        return Some(String::new());
    }
    let segs = split_path(path);
    let ghost all = segs.deep_view();
    let mut comps: Vec<String> = Vec::new();
    let mut parents: usize = 0;
    let mut rooted = false;
    let mut i: usize = 0;
    let first = &segs[0];
    if first.as_str().unicode_len() == 0 {
        rooted = true;
        i = 1;
    }
    proof {
        assert(all[0] == segs@[0]@);
        assert(comps.deep_view() =~= Seq::<Seq<char>>::empty());
        let st0 = NormState { rooted, parents: 0 as nat, comps: comps.deep_view() };
        assert(st0 =~= init_state(rooted));
        if rooted {
            assert(all[0] =~= seg_empty());
        } else {
            assert(all[0] != seg_empty());
            assert(all.skip(0) =~= all);
        }
    }
    while i < segs.len()
        invariant
            i <= segs@.len(),
            parents <= i,
            all == segs.deep_view(),
            all.len() == segs@.len(),
            spec_norm(path@) == norm_segs(
                all.skip(i as int),
                NormState { rooted, parents: parents as nat, comps: comps.deep_view() },
            ),
        decreases segs@.len() - i,
    {
        let ghost st = NormState { rooted, parents: parents as nat, comps: comps.deep_view() };
        let ghost rest = all.skip(i as int);
        proof {
            assert(rest[0] == all[i as int]);
            assert(all[i as int] == segs@[i as int]@);
            assert(rest.skip(1) =~= all.skip(i + 1));
        }
        let seg = &segs[i];
        let m = seg.as_str().unicode_len();
        if m == 0 {
            proof {
                assert(seg@ =~= seg_empty());
            }
        } else if m == 1 && seg.as_str().get_char(0) == '.' {
            proof {
                assert(seg@ =~= seg_dot());
            }
        } else if m == 2 && seg.as_str().get_char(0) == '.' && seg.as_str().get_char(1) == '.' {
            proof {
                assert(seg@ =~= seg_dotdot());
                assert(seg@ != seg_empty() && seg@ != seg_dot());
            }
            if comps.len() > 0 {
                let ghost prev = comps.deep_view();
                comps.pop();
                proof {
                    assert(comps.deep_view() =~= prev.drop_last());
                }
            } else if rooted {
                proof {
                    assert(norm_segs(rest, st) is None);
                }
                return None;
            } else {
                parents += 1;
            }
        } else {
            proof {
                assert(seg@.len() != 0);
                if seg@.len() == 1 {
                    assert(seg@[0] != '.');
                }
                if seg@.len() == 2 {
                    assert(!(seg@[0] == '.' && seg@[1] == '.'));
                }
                assert(seg@ != seg_empty());
                assert(seg@ != seg_dot());
                assert(seg@ != seg_dotdot());
            }
            let ghost prev = comps.deep_view();
            comps.push(seg.clone());
            proof {
                assert(comps.deep_view() =~= prev.push(seg@));
            }
        }
        i += 1;
    }
    let ghost st = NormState { rooted, parents: parents as nat, comps: comps.deep_view() };
    proof {
        assert(all.skip(i as int) =~= Seq::<Seq<char>>::empty());
        assert(spec_norm(path@) == Some(st));
    }
    let mut pieces: Vec<String> = Vec::new();
    let mut k: usize = 0;
    proof {
        reveal_strlit("..");
        reveal_strlit(".");
        reveal_strlit("/");
    }
    while k < parents
        invariant
            k <= parents,
            pieces.deep_view() == Seq::new(k as nat, |q: int| seg_dotdot()),
        decreases parents - k,
    {
        let ghost prev = pieces.deep_view();
        let dd = String::from_str("..");
        proof {
            reveal_strlit("..");
            assert(dd@ =~= seg_dotdot());
        }
        pieces.push(dd);
        proof {
            assert(pieces.deep_view() =~= prev.push(seg_dotdot()));
            assert(pieces.deep_view() =~= Seq::new((k + 1) as nat, |q: int| seg_dotdot()));
        }
        k += 1;
    }
    let ghost dots = pieces.deep_view();
    let mut tail = comps;
    pieces.append(&mut tail);
    proof {
        assert(pieces.deep_view() =~= dots + st.comps);
        assert(pieces.deep_view() == result_pieces(st));
    }
    if pieces.len() == 0 {
        if rooted {
            let out = String::from_str("/");
            proof {
                assert(out@ =~= render(st));
            }
            Some(out)
        } else {
            let out = String::from_str(".");
            proof {
                assert(out@ =~= render(st));
            }
            Some(out)
        }
    } else {
        let mut out = if rooted {
            String::from_str("/")
        } else {
            String::new()
        };
        let ghost lead = out@;
        proof {
            if rooted {
                assert(lead =~= seq!['/']);
            }
        }
        out.append(pieces[0].as_str());
        let mut q: usize = 1;
        proof {
            assert(pieces.deep_view().take(1) =~= seq![pieces.deep_view()[0]]);
            assert(spec_join(pieces.deep_view().take(1)) == pieces.deep_view()[0]);
        }
        while q < pieces.len()
            invariant
                1 <= q <= pieces@.len(),
                pieces.deep_view() == result_pieces(st),
                out@ == lead + spec_join(pieces.deep_view().take(q as int)),
                (if st.rooted {
                    lead == seq!['/']
                } else {
                    lead == Seq::<char>::empty()
                }),
            decreases pieces@.len() - q,
        {
            out.append("/");
            out.append(pieces[q].as_str());
            proof {
                reveal_strlit("/");
                let pv = pieces.deep_view();
                lemma_join_push(pv.take(q as int), pv[q as int]);
                assert(pv.take(q as int).push(pv[q as int]) =~= pv.take(q + 1));
                assert(out@ =~= lead + spec_join(pv.take(q + 1)));
            }
            q += 1;
        }
        proof {
            let pv = pieces.deep_view();
            assert(pv.take(q as int) =~= pv);
            assert(out@ =~= render(st));
        }
        Some(out)
    }
}

/// A real segment: one the normalizer retains verbatim.
pub open spec fn real_seg(seg: Seq<char>) -> bool {
    seg != seg_empty() && seg != seg_dot() && seg != seg_dotdot()
}

/// A well-formed final normalizer state: a rooted state has no
/// surviving `..` segments, and every retained component is a real,
/// separator-free segment.
pub open spec fn good_state(st: NormState) -> bool {
    &&& st.rooted ==> st.parents == 0
    &&& forall|k: int|
        0 <= k < st.comps.len() ==> real_seg(#[trigger] st.comps[k]) && sep_free(st.comps[k])
}

proof fn lemma_tail_contains(segs: Seq<Seq<char>>, x: Seq<char>)
    requires
        segs.len() >= 1,
        segs.skip(1).contains(x),
    ensures
        segs.contains(x),
{
    let i = choose|i: int| 0 <= i < segs.skip(1).len() && segs.skip(1)[i] == x;
    assert(segs[i + 1] == x);
}

proof fn lemma_drop_last_contains(s: Seq<Seq<char>>, x: Seq<char>)
    requires
        s.len() >= 1,
        s.drop_last().contains(x),
    ensures
        s.contains(x),
{
    let i = choose|i: int| 0 <= i < s.drop_last().len() && s.drop_last()[i] == x;
    assert(s[i] == x);
}

/// The pass preserves well-formedness of the state, never changes
/// whether the path is rooted, and only ever retains components taken
/// verbatim from the state or from the segments themselves.
proof fn lemma_norm_segs_props(segs: Seq<Seq<char>>, st: NormState)
    requires
        forall|i: int| 0 <= i < segs.len() ==> sep_free(#[trigger] segs[i]),
        good_state(st),
    ensures
        norm_segs(segs, st) matches Some(st2) ==> st2.rooted == st.rooted && good_state(st2),
        norm_segs(segs, st) matches Some(st2) ==> forall|k: int|
            0 <= k < st2.comps.len() ==> st.comps.contains(#[trigger] st2.comps[k])
                || segs.contains(st2.comps[k]),
    decreases segs.len(),
{
    if segs.len() == 0 {
    } else {
        let seg = segs[0];
        let rest = segs.skip(1);
        assert(forall|i: int| 0 <= i < rest.len() ==> sep_free(#[trigger] rest[i]));
        if seg == seg_empty() || seg == seg_dot() {
            lemma_norm_segs_props(rest, st);
            if norm_segs(segs, st) is Some {
                let st2 = norm_segs(segs, st)->Some_0;
                assert forall|k: int| 0 <= k < st2.comps.len() implies st.comps.contains(
                    #[trigger] st2.comps[k],
                ) || segs.contains(st2.comps[k]) by {
                    if rest.contains(st2.comps[k]) {
                        lemma_tail_contains(segs, st2.comps[k]);
                    }
                }
            }
        } else if seg == seg_dotdot() {
            if st.comps.len() > 0 {
                let st1 = NormState { comps: st.comps.drop_last(), ..st };
                assert(good_state(st1));
                lemma_norm_segs_props(rest, st1);
                if norm_segs(segs, st) is Some {
                let st2 = norm_segs(segs, st)->Some_0;
                    assert forall|k: int| 0 <= k < st2.comps.len() implies st.comps.contains(
                        #[trigger] st2.comps[k],
                    ) || segs.contains(st2.comps[k]) by {
                        if st1.comps.contains(st2.comps[k]) {
                            lemma_drop_last_contains(st.comps, st2.comps[k]);
                        } else if rest.contains(st2.comps[k]) {
                            lemma_tail_contains(segs, st2.comps[k]);
                        }
                    }
                }
            } else if st.rooted {
            } else {
                let st1 = NormState { parents: st.parents + 1, ..st };
                lemma_norm_segs_props(rest, st1);
                if norm_segs(segs, st) is Some {
                let st2 = norm_segs(segs, st)->Some_0;
                    assert forall|k: int| 0 <= k < st2.comps.len() implies st.comps.contains(
                        #[trigger] st2.comps[k],
                    ) || segs.contains(st2.comps[k]) by {
                        if rest.contains(st2.comps[k]) {
                            lemma_tail_contains(segs, st2.comps[k]);
                        }
                    }
                }
            }
        } else {
            let st1 = NormState { comps: st.comps.push(seg), ..st };
            assert(real_seg(seg));
            assert(sep_free(seg));
            assert forall|k: int| 0 <= k < st1.comps.len() implies real_seg(
                #[trigger] st1.comps[k],
            ) && sep_free(st1.comps[k]) by {
                if k < st.comps.len() {
                    assert(st1.comps[k] == st.comps[k]);
                }
            }
            lemma_norm_segs_props(rest, st1);
            if norm_segs(segs, st) is Some {
                let st2 = norm_segs(segs, st)->Some_0;
                assert forall|k: int| 0 <= k < st2.comps.len() implies st.comps.contains(
                    #[trigger] st2.comps[k],
                ) || segs.contains(st2.comps[k]) by {
                    let x = st2.comps[k];
                    if st1.comps.contains(x) {
                        let i = choose|i: int| 0 <= i < st1.comps.len() && st1.comps[i] == x;
                        if i < st.comps.len() {
                            assert(st.comps[i] == x);
                        } else {
                            assert(segs[0] == x);
                        }
                    } else if rest.contains(x) {
                        lemma_tail_contains(segs, x);
                    }
                }
            }
        }
    }
}

/// An unrooted pass never fails: ascent past the start of a relative
/// path accumulates literal `..` segments instead.
proof fn lemma_norm_unrooted_total(segs: Seq<Seq<char>>, st: NormState)
    requires
        !st.rooted,
    ensures
        norm_segs(segs, st) is Some,
    decreases segs.len(),
{
    if segs.len() != 0 {
        let seg = segs[0];
        let rest = segs.skip(1);
        if seg == seg_empty() || seg == seg_dot() {
            lemma_norm_unrooted_total(rest, st);
        } else if seg == seg_dotdot() {
            if st.comps.len() > 0 {
                lemma_norm_unrooted_total(
                    rest,
                    NormState { comps: st.comps.drop_last(), ..st },
                );
            } else {
                lemma_norm_unrooted_total(rest, NormState { parents: st.parents + 1, ..st });
            }
        } else {
            lemma_norm_unrooted_total(rest, NormState { comps: st.comps.push(seg), ..st });
        }
    }
}

/// Depth-counting image of the pass: `..` at depth zero escapes.
pub open spec fn escapes(segs: Seq<Seq<char>>, depth: nat) -> bool
    decreases segs.len(),
{
    if segs.len() == 0 {
        false
    } else {
        let seg = segs[0];
        if seg == seg_empty() || seg == seg_dot() {
            escapes(segs.skip(1), depth)
        } else if seg == seg_dotdot() {
            if depth == 0 {
                true
            } else {
                escapes(segs.skip(1), (depth - 1) as nat)
            }
        } else {
            escapes(segs.skip(1), depth + 1)
        }
    }
}

/// A rooted pass fails exactly when the segments escape the depth of
/// the components held so far.
proof fn lemma_rooted_fails_iff_escapes(segs: Seq<Seq<char>>, st: NormState)
    requires
        st.rooted,
    ensures
        norm_segs(segs, st) is None <==> escapes(segs, st.comps.len()),
    decreases segs.len(),
{
    if segs.len() != 0 {
        let seg = segs[0];
        let rest = segs.skip(1);
        if seg == seg_empty() || seg == seg_dot() {
            lemma_rooted_fails_iff_escapes(rest, st);
        } else if seg == seg_dotdot() {
            if st.comps.len() > 0 {
                lemma_rooted_fails_iff_escapes(
                    rest,
                    NormState { comps: st.comps.drop_last(), ..st },
                );
            }
        } else {
            lemma_rooted_fails_iff_escapes(rest, NormState { comps: st.comps.push(seg), ..st });
        }
    }
}

/// A path that tries to ascend above a leading absolute root: it starts
/// with `/` and its remaining segments, walked left to right, issue a
/// `..` at descent depth zero.
pub open spec fn ascends_past_root(s: Seq<char>) -> bool {
    s.len() > 0 && s[0] == '/' && escapes(spec_split(s).skip(1), 0)
}

/// Normalization succeeds on exactly the paths that do not try to
/// ascend above a leading absolute root; in particular it succeeds on
/// every relative path.
pub proof fn lemma_normalize_succeeds_iff(s: Seq<char>)
    ensures
        spec_try_normalize(s) is Some <==> !ascends_past_root(s),
{
    if s.len() != 0 {
        let segs = spec_split(s);
        lemma_split_len(s.skip(1));
        if s[0] == '/' {
            assert(segs[0] == seg_empty());
            lemma_rooted_fails_iff_escapes(segs.skip(1), init_state(true));
        } else {
            let rest = spec_split(s.skip(1));
            assert(segs[0] == seq![s[0]] + rest[0]);
            assert(segs[0].len() >= 1);
            assert(segs[0] != seg_empty());
            lemma_norm_unrooted_total(segs, init_state(false));
        }
    }
}

/// A run of real segments is retained verbatim, in order.
proof fn lemma_norm_segs_reals(segs: Seq<Seq<char>>, st: NormState)
    requires
        forall|i: int| 0 <= i < segs.len() ==> real_seg(#[trigger] segs[i]),
    ensures
        norm_segs(segs, st) == Some(
            NormState { rooted: st.rooted, parents: st.parents, comps: st.comps + segs },
        ),
    decreases segs.len(),
{
    if segs.len() == 0 {
        assert(st.comps + segs =~= st.comps);
        assert(NormState { rooted: st.rooted, parents: st.parents, comps: st.comps + segs } =~= st);
    } else {
        let seg = segs[0];
        let rest = segs.skip(1);
        assert(real_seg(seg));
        let st1 = NormState { comps: st.comps.push(seg), ..st };
        lemma_norm_segs_reals(rest, st1);
        assert(st1.comps + rest =~= st.comps + segs);
    }
}

/// Leading `..` segments of an unrooted pass all survive as pending
/// parents.
proof fn lemma_norm_segs_dotdots(k: nat, rest: Seq<Seq<char>>, st: NormState)
    requires
        !st.rooted,
        st.comps == Seq::<Seq<char>>::empty(),
    ensures
        norm_segs(Seq::new(k, |i: int| seg_dotdot()) + rest, st) == norm_segs(
            rest,
            NormState { parents: st.parents + k, ..st },
        ),
    decreases k,
{
    let dots = Seq::new(k, |i: int| seg_dotdot());
    if k == 0 {
        assert(dots + rest =~= rest);
        assert(NormState { parents: st.parents + 0, ..st } =~= st);
    } else {
        let whole = dots + rest;
        assert(whole[0] == seg_dotdot());
        assert(seg_dotdot() != seg_empty() && seg_dotdot() != seg_dot());
        let st1 = NormState { parents: st.parents + 1, ..st };
        assert(whole.skip(1) =~= Seq::new((k - 1) as nat, |i: int| seg_dotdot()) + rest);
        lemma_norm_segs_dotdots((k - 1) as nat, rest, st1);
        assert(NormState { parents: st1.parents + (k - 1) as nat, ..st1 } =~= NormState {
            parents: st.parents + k,
            ..st
        });
    }
}

/// Re-parsing a rendered state reaches the same state again, and the
/// rendered text's segments have the shape the state dictates.
proof fn lemma_render_reparse(st: NormState)
    requires
        good_state(st),
    ensures
        render(st).len() > 0,
        spec_try_normalize(render(st)) == Some(render(st)),
        (render(st)[0] == '/') <==> st.rooted,
        st.rooted ==> spec_split(render(st)).len() >= 2 && spec_split(render(st))[1]
            != seg_dotdot(),
        forall|j: int|
            0 <= j < spec_split(render(st)).len() ==> #[trigger] spec_split(render(st))[j]
                == seg_empty() || spec_split(render(st))[j] == seg_dot() || spec_split(render(st))[j]
                == seg_dotdot() || st.comps.contains(spec_split(render(st))[j]),
{
    let t = render(st);
    let pieces = result_pieces(st);
    assert(sep_free(seg_dotdot()));
    assert forall|i: int| 0 <= i < pieces.len() implies sep_free(#[trigger] pieces[i]) && pieces[i]
        != seg_empty() by {
        if i < st.parents {
            assert(pieces[i] == seg_dotdot());
        } else {
            assert(pieces[i] == st.comps[i - st.parents]);
            assert(real_seg(pieces[i]));
        }
    }
    if pieces.len() == 0 {
        assert(st.comps =~= Seq::<Seq<char>>::empty());
        if st.rooted {
            assert(t == seq!['/']);
            assert(t.skip(1) =~= Seq::<char>::empty());
            assert(spec_split(t) =~~= seq![seg_empty(), seg_empty()]);
            assert(spec_split(t)[0] == seg_empty());
            assert(spec_split(t).skip(1) =~= seq![seg_empty()]);
            assert(norm_segs(spec_split(t).skip(1), init_state(true)) == Some(init_state(true)));
            assert(init_state(true) =~= st);
            assert(result_pieces(init_state(true)) =~= Seq::<Seq<char>>::empty());
            assert(spec_try_normalize(t) == Some(render(st)));
        } else {
            assert(t == seq!['.']);
            assert(t[0] != '/');
            assert(t.skip(1) =~= Seq::<char>::empty());
            let rest = spec_split(t.skip(1));
            assert(rest =~~= seq![seg_empty()]);
            assert(spec_split(t) =~~= seq![seg_dot()]);
            assert(spec_split(t)[0] != seg_empty());
            assert(seq![seg_dot()].skip(1) =~= Seq::<Seq<char>>::empty());
            assert(norm_segs(Seq::<Seq<char>>::empty(), init_state(false)) == Some(
                init_state(false),
            ));
            assert(norm_segs(spec_split(t), init_state(false)) == Some(init_state(false)));
            assert(init_state(false) =~= st);
            assert(result_pieces(init_state(false)) =~= Seq::<Seq<char>>::empty());
            assert(spec_try_normalize(t) == Some(render(st)));
        }
    } else {
        let j = spec_join(pieces);
        lemma_split_of_join(pieces);
        if pieces.len() == 1 {
            assert(j == pieces[0]);
        } else {
            assert(j == pieces[0] + seq!['/'] + spec_join(pieces.skip(1)));
        }
        assert(j.len() >= pieces[0].len());
        assert(pieces[0].len() > 0);
        assert(j[0] == pieces[0][0]);
        assert(j[0] != '/');
        if st.rooted {
            assert(st.parents == 0);
            assert(pieces =~= st.comps);
            assert(t == seq!['/'] + j);
            assert(t[0] == '/');
            assert(t.skip(1) =~= j);
            assert(spec_split(t) =~= seq![seg_empty()] + pieces);
            assert(spec_split(t)[0] == seg_empty());
            assert(spec_split(t).skip(1) =~= pieces);
            assert forall|i: int| 0 <= i < pieces.len() implies real_seg(
                #[trigger] pieces[i],
            ) by {
                assert(pieces[i] == st.comps[i]);
            }
            lemma_norm_segs_reals(pieces, init_state(true));
            let st2 = NormState {
                rooted: true,
                parents: 0,
                comps: Seq::<Seq<char>>::empty() + pieces,
            };
            assert(Seq::<Seq<char>>::empty() + pieces =~= st.comps);
            assert(st2 =~= st);
            assert(spec_try_normalize(t) == Some(render(st)));
            assert(spec_split(t).len() >= 2);
            assert(spec_split(t)[1] == pieces[0]);
            assert(spec_split(t)[1] != seg_dotdot());
            assert forall|q: int| 0 <= q < spec_split(t).len() implies #[trigger] spec_split(t)[q]
                == seg_empty() || spec_split(t)[q] == seg_dot() || spec_split(t)[q] == seg_dotdot()
                || st.comps.contains(spec_split(t)[q]) by {
                if q > 0 {
                    assert(spec_split(t)[q] == st.comps[q - 1]);
                    assert(st.comps.contains(st.comps[q - 1]));
                }
            }
        } else {
            assert(t == j);
            assert(t.len() > 0);
            assert(spec_split(t) == pieces);
            assert(spec_split(t)[0] != seg_empty());
            let dots = Seq::new(st.parents, |i: int| seg_dotdot());
            assert(pieces =~= dots + st.comps);
            lemma_norm_segs_dotdots(st.parents, st.comps, init_state(false));
            let mid = NormState { rooted: false, parents: 0 + st.parents, comps: Seq::empty() };
            assert forall|i: int| 0 <= i < st.comps.len() implies real_seg(
                #[trigger] st.comps[i],
            ) by {}
            lemma_norm_segs_reals(st.comps, mid);
            let st2 = NormState {
                rooted: false,
                parents: mid.parents,
                comps: Seq::<Seq<char>>::empty() + st.comps,
            };
            assert(Seq::<Seq<char>>::empty() + st.comps =~= st.comps);
            assert(st2 =~= st);
            assert(norm_segs(pieces, init_state(false)) == Some(st));
            assert(spec_try_normalize(t) == Some(render(st)));
            assert forall|q: int| 0 <= q < spec_split(t).len() implies #[trigger] spec_split(t)[q]
                == seg_empty() || spec_split(t)[q] == seg_dot() || spec_split(t)[q] == seg_dotdot()
                || st.comps.contains(spec_split(t)[q]) by {
                if q >= st.parents {
                    assert(spec_split(t)[q] == st.comps[q - st.parents]);
                    assert(st.comps.contains(st.comps[q - st.parents]));
                } else {
                    assert(spec_split(t)[q] == seg_dotdot());
                }
            }
        }
    }
}

/// The state a successful normalization of a non-empty path ends in is
/// well formed, and its components are segments of the path itself.
proof fn lemma_norm_good(s: Seq<char>)
    requires
        s.len() > 0,
        spec_norm(s) is Some,
    ensures
        good_state(spec_norm(s)->Some_0),
        forall|k: int|
            0 <= k < spec_norm(s)->Some_0.comps.len() ==> spec_split(s).contains(
                #[trigger] spec_norm(s)->Some_0.comps[k],
            ),
{
    let segs = spec_split(s);
    lemma_split_len(s);
    lemma_split_sep_free(s);
    let st2 = spec_norm(s)->Some_0;
    if segs[0] == seg_empty() {
        let rest = segs.skip(1);
        assert(forall|i: int| 0 <= i < rest.len() ==> sep_free(#[trigger] rest[i]));
        lemma_norm_segs_props(rest, init_state(true));
        assert forall|k: int| 0 <= k < st2.comps.len() implies segs.contains(
            #[trigger] st2.comps[k],
        ) by {
            assert(rest.contains(st2.comps[k]));
            lemma_tail_contains(segs, st2.comps[k]);
        }
    } else {
        lemma_norm_segs_props(segs, init_state(false));
        assert forall|k: int| 0 <= k < st2.comps.len() implies segs.contains(
            #[trigger] st2.comps[k],
        ) by {
            assert(segs.contains(st2.comps[k]));
        }
    }
}

/// Normalization is idempotent: a successful result is a fixed point.
pub proof fn lemma_normalize_idempotent(s: Seq<char>, t: Seq<char>)
    requires
        spec_try_normalize(s) == Some(t),
    ensures
        spec_try_normalize(t) == Some(t),
{
    if s.len() == 0 {
        assert(t.len() == 0);
    } else {
        let st = spec_norm(s)->Some_0;
        lemma_norm_good(s);
        lemma_render_reparse(st);
    }
}

/// A successful result that starts with `/` never has `..` as its
/// first segment after the root: an absolute result cannot lead
/// upward.
pub proof fn lemma_rooted_result_no_ascent(s: Seq<char>, t: Seq<char>)
    requires
        spec_try_normalize(s) == Some(t),
        t.len() > 0,
        t[0] == '/',
    ensures
        spec_split(t).len() >= 2,
        spec_split(t)[1] != seg_dotdot(),
{
    assert(s.len() > 0);
    let st = spec_norm(s)->Some_0;
    lemma_norm_good(s);
    lemma_render_reparse(st);
    assert(st.rooted);
}

/// Every segment of a successful result is either punctuation the
/// normalizer itself writes — the root's empty segment, `.`, `..` — or
/// a segment of the input carried over byte for byte; in particular
/// whitespace inside segments is preserved exactly.
pub proof fn lemma_segments_verbatim(s: Seq<char>, t: Seq<char>)
    requires
        spec_try_normalize(s) == Some(t),
    ensures
        forall|j: int|
            0 <= j < spec_split(t).len() ==> #[trigger] spec_split(t)[j] == seg_empty()
                || spec_split(t)[j] == seg_dot() || spec_split(t)[j] == seg_dotdot()
                || spec_split(s).contains(spec_split(t)[j]),
{
    if s.len() == 0 {
        assert(t.len() == 0);
        assert(spec_split(t) =~~= seq![seg_empty()]);
    } else {
        let st = spec_norm(s)->Some_0;
        lemma_norm_good(s);
        lemma_render_reparse(st);
        assert forall|j: int| 0 <= j < spec_split(t).len() implies #[trigger] spec_split(t)[j]
            == seg_empty() || spec_split(t)[j] == seg_dot() || spec_split(t)[j] == seg_dotdot()
            || spec_split(s).contains(spec_split(t)[j]) by {
            if st.comps.contains(spec_split(t)[j]) {
                let k = choose|k: int| 0 <= k < st.comps.len() && st.comps[k] == spec_split(t)[j];
            }
        }
    }
}

/// What normalization hands the backends: the canonical form where one
/// exists, else the original path string unchanged (the fail-open
/// policy: a failed normalization never fails the request itself).
pub open spec fn spec_normalize_or_original(s: Seq<char>) -> Seq<char> {
    match spec_try_normalize(s) {
        Some(t) => t,
        None => s,
    }
}

/// Normalize a TeX path if possible, otherwise return the original path
/// unchanged.
pub fn normalize_tex_path(path: &str) -> (r: String)
    ensures
        r@ == spec_normalize_or_original(path@),
{
    match try_normalize_tex_path(path) {
        Some(t) => t,
        None => String::from_str(path),
    }
}

} // verus!
