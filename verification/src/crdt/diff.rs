//! Character diffs: which stretches of a new text are taken over from the old
//! one.
use vstd::prelude::*;

verus! {

/// One step of a diff: whether it is a stretch that both texts share, then how
/// many characters of the old text and how many of the new one it covers.
pub type Span = (bool, usize, usize);

/// One step of a diff with its places: whether it is a stretch that both texts
/// share, then the stretch of the old text and the stretch of the new one, each as
/// the places of its first character and of the character behind its last.
pub type Step = (bool, usize, usize, usize, usize);

/// The steps of the character diff between two texts, by their lengths.
pub uninterp spec fn diff_spans(old_text: Seq<char>, new_text: Seq<char>) -> Seq<
    (bool, usize, usize),
>;

/// How much of the old text the first `k` steps cover.
pub open spec fn old_covered(spans: Seq<Span>, k: int) -> int
    decreases k,
{
    if k <= 0 {
        0
    } else {
        old_covered(spans, k - 1) + spans[k - 1].1
    }
}

/// How much of the new text the first `k` steps cover.
pub open spec fn new_covered(spans: Seq<Span>, k: int) -> int
    decreases k,
{
    if k <= 0 {
        0
    } else {
        new_covered(spans, k - 1) + spans[k - 1].2
    }
}

/// The steps, one after the other, cover both texts, and a shared stretch is the
/// same in both.
pub open spec fn covers(spans: Seq<Span>, old_text: Seq<char>, new_text: Seq<char>) -> bool {
    &&& old_covered(spans, spans.len() as int) == old_text.len()
    &&& new_covered(spans, spans.len() as int) == new_text.len()
    &&& forall|k: int|
        0 <= k < spans.len() && (#[trigger] spans[k]).0 ==> old_text.subrange(
            old_covered(spans, k),
            old_covered(spans, k + 1),
        ) == new_text.subrange(new_covered(spans, k), new_covered(spans, k + 1))
}

/// Rising places of the old text and of the new one, at which both have the same
/// characters: what is there can be kept.
pub open spec fn in_common(
    old_text: Seq<char>,
    new_text: Seq<char>,
    at_old: Seq<int>,
    at_new: Seq<int>,
) -> bool {
    &&& at_old.len() == at_new.len()
    &&& forall|k: int|
        0 <= k < at_old.len() ==> 0 <= #[trigger] at_old[k] < old_text.len() && 0 <= at_new[k]
            < new_text.len() && old_text[at_old[k]] == new_text[at_new[k]]
    &&& forall|k: int, m: int|
        0 <= k < m < at_old.len() ==> #[trigger] at_old[k] < #[trigger] at_old[m] && at_new[k]
            < at_new[m]
}

/// How many characters the first `k` steps keep.
pub open spec fn kept(spans: Seq<Span>, k: int) -> int
    decreases k,
{
    if k <= 0 {
        0
    } else {
        kept(spans, k - 1) + if spans[k - 1].0 {
            spans[k - 1].1 as int
        } else {
            0
        }
    }
}

/// There is no way to keep more of the old text than the steps do.
pub open spec fn keeps_most(spans: Seq<Span>, old_text: Seq<char>, new_text: Seq<char>) -> bool {
    forall|at_old: Seq<int>, at_new: Seq<int>| #[trigger]
        in_common(old_text, new_text, at_old, at_new) ==> at_old.len() <= kept(
            spans,
            spans.len() as int,
        )
}

/// `similar::capture_diff_slices` with Myers' algorithm: the steps that lead from
/// the old text to the new one, by their kinds and lengths. They depend on the two
/// texts alone. One after the other they cover both texts, and a step that keeps
/// characters keeps those that both texts have at its place. Where the crate says
/// that a step lies is not used: it moves steps past each other without mending
/// that. Myers' algorithm finds a shortest way, where no deadline is set: none keeps
/// more characters.
#[verifier::external_body]
fn diff_lengths(old_text: &[char], new_text: &[char]) -> (r: Vec<Span>)
    ensures
        r@ == diff_spans(old_text@, new_text@),
        covers(r@, old_text@, new_text@),
        keeps_most(r@, old_text@, new_text@),
{
    similar::capture_diff_slices(similar::Algorithm::Myers, old_text, new_text)
        .iter()
        .map(|op| (op.tag() == similar::DiffTag::Equal, op.old_range().len(), op.new_range().len()))
        .collect()
}

/// A step with its places, which are where the steps before it end.
pub open spec fn placed(spans: Seq<Span>, k: int) -> Step {
    (
        spans[k].0,
        old_covered(spans, k) as usize,
        old_covered(spans, k + 1) as usize,
        new_covered(spans, k) as usize,
        new_covered(spans, k + 1) as usize,
    )
}

/// The steps of the character diff between two texts, with their places.
#[verifier::opaque]
pub open spec fn char_diff(old_text: Seq<char>, new_text: Seq<char>) -> Seq<Step> {
    let spans = diff_spans(old_text, new_text);
    Seq::new(spans.len(), |k: int| placed(spans, k))
}

/// Where step `k` starts in the old text: where the one before it ends.
pub open spec fn old_start(steps: Seq<Step>, k: int) -> int {
    if k <= 0 {
        0
    } else {
        steps[k - 1].2 as int
    }
}

/// Where step `k` starts in the new text: where the one before it ends.
pub open spec fn new_start(steps: Seq<Step>, k: int) -> int {
    if k <= 0 {
        0
    } else {
        steps[k - 1].4 as int
    }
}

/// The steps cover both texts from start to end without gaps, and a shared
/// stretch is the same in both.
pub open spec fn is_script(steps: Seq<Step>, old_text: Seq<char>, new_text: Seq<char>) -> bool {
    &&& forall|k: int|
        0 <= k < steps.len() ==> {
            let s = #[trigger] steps[k];
            &&& s.1 == old_start(steps, k)
            &&& s.3 == new_start(steps, k)
            &&& s.1 <= s.2 <= old_text.len()
            &&& s.3 <= s.4 <= new_text.len()
            &&& s.0 ==> old_text.subrange(s.1 as int, s.2 as int) == new_text.subrange(
                s.3 as int,
                s.4 as int,
            )
        }
    &&& old_start(steps, steps.len() as int) == old_text.len()
    &&& new_start(steps, steps.len() as int) == new_text.len()
}

/// How many characters of the old text the first `k` steps take out.
pub open spec fn removed(steps: Seq<Step>, k: int) -> int
    decreases k,
{
    if k <= 0 {
        0
    } else {
        removed(steps, k - 1) + if steps[k - 1].0 {
            0
        } else {
            steps[k - 1].2 - steps[k - 1].1
        }
    }
}

/// How many characters of the new text the first `k` steps put in.
pub open spec fn added(steps: Seq<Step>, k: int) -> int
    decreases k,
{
    if k <= 0 {
        0
    } else {
        added(steps, k - 1) + if steps[k - 1].0 {
            0
        } else {
            steps[k - 1].4 - steps[k - 1].3
        }
    }
}

/// The steps take out and put in no more than they must: whatever both texts have in
/// common, at least as much is left alone.
pub open spec fn is_shortest(steps: Seq<Step>, old_text: Seq<char>, new_text: Seq<char>) -> bool {
    forall|at_old: Seq<int>, at_new: Seq<int>| #[trigger]
        in_common(old_text, new_text, at_old, at_new) ==> {
            &&& removed(steps, steps.len() as int) + at_old.len() <= old_text.len()
            &&& added(steps, steps.len() as int) + at_old.len() <= new_text.len()
        }
}

/// What the steps do not take out they keep.
proof fn lemma_kept(old_text: Seq<char>, new_text: Seq<char>, spans: Seq<Span>, k: int)
    requires
        covers(spans, old_text, new_text),
        old_text.len() <= usize::MAX,
        new_text.len() <= usize::MAX,
        0 <= k <= spans.len(),
    ensures
        ({
            let steps = Seq::new(spans.len(), |j: int| placed(spans, j));
            &&& removed(steps, k) + kept(spans, k) == old_covered(spans, k)
            &&& added(steps, k) + kept(spans, k) == new_covered(spans, k)
        }),
    decreases k,
{
    if k > 0 {
        lemma_kept(old_text, new_text, spans, k - 1);
        lemma_covered(spans, k - 1, k);
        lemma_covered(spans, k, spans.len() as int);
        if spans[k - 1].0 {
            let a = old_text.subrange(old_covered(spans, k - 1), old_covered(spans, k));
            let b = new_text.subrange(new_covered(spans, k - 1), new_covered(spans, k));
            assert(a == b);
            assert(a.len() == spans[k - 1].1 && b.len() == spans[k - 1].2);
        }
    }
}

/// The steps of a shortest way are the shortest steps: the diff of two texts takes out
/// what it must and leaves the rest alone.
pub proof fn law_diffs_leave_alone_what_is_shared(old_text: Seq<char>, new_text: Seq<char>)
    requires
        old_text.len() <= usize::MAX,
        new_text.len() <= usize::MAX,
        covers(diff_spans(old_text, new_text), old_text, new_text),
        keeps_most(diff_spans(old_text, new_text), old_text, new_text),
    ensures
        is_shortest(char_diff(old_text, new_text), old_text, new_text),
{
    reveal(char_diff);
    let spans = diff_spans(old_text, new_text);
    lemma_kept(old_text, new_text, spans, spans.len() as int);
}

/// The first steps cover no more than all of them.
proof fn lemma_covered(spans: Seq<Span>, k: int, n: int)
    requires
        0 <= k <= n,
    ensures
        0 <= old_covered(spans, k) <= old_covered(spans, n),
        0 <= new_covered(spans, k) <= new_covered(spans, n),
    decreases n,
{
    if k < n {
        lemma_covered(spans, k, n - 1);
    } else if k > 0 {
        lemma_covered(spans, k - 1, k - 1);
    }
}

/// The steps that lead from the old text to the new one.
pub(crate) fn diff_chars(old_text: &[char], new_text: &[char]) -> (r: Vec<Step>)
    ensures
        r@ == char_diff(old_text@, new_text@),
        is_script(r@, old_text@, new_text@),
        is_shortest(r@, old_text@, new_text@),
{
    proof {
        reveal(char_diff);
    }
    let spans = diff_lengths(old_text, new_text);
    let old_len: usize = old_text.len();
    let new_len: usize = new_text.len();
    let ghost want = char_diff(old_text@, new_text@);
    let mut out: Vec<Step> = Vec::new();
    let mut old_at: usize = 0;
    let mut new_at: usize = 0;
    let mut k: usize = 0;
    while k < spans.len()
        invariant
            k <= spans@.len(),
            spans@ == diff_spans(old_text@, new_text@),
            old_len == old_text@.len(),
            new_len == new_text@.len(),
            covers(spans@, old_text@, new_text@),
            keeps_most(spans@, old_text@, new_text@),
            want == char_diff(old_text@, new_text@),
            old_at == old_covered(spans@, k as int),
            new_at == new_covered(spans@, k as int),
            out@ == want.take(k as int),
        decreases spans@.len() - k,
    {
        let (shared, gone, new) = spans[k];
        proof {
            reveal(char_diff);
            lemma_covered(spans@, k + 1, spans@.len() as int);
        }
        out.push((shared, old_at, old_at + gone, new_at, new_at + new));
        assert(want[k as int] == placed(spans@, k as int));
        assert(old_covered(spans@, k + 1) == old_at + gone);
        assert(new_covered(spans@, k + 1) == new_at + new);
        assert(out@ =~= want.take(k + 1));
        old_at = old_at + gone;
        new_at = new_at + new;
        k += 1;
    }
    proof {
        let all = spans@;
        assert(want.take(k as int) =~= want);
        law_diffs_leave_alone_what_is_shared(old_text@, new_text@);
        assert forall|j: int| 0 <= j < want.len() implies {
            let s = #[trigger] want[j];
            &&& s.1 == old_covered(all, j) && s.2 == old_covered(all, j + 1)
            &&& s.3 == new_covered(all, j) && s.4 == new_covered(all, j + 1)
            &&& s.1 <= s.2 <= old_text@.len()
            &&& s.3 <= s.4 <= new_text@.len()
        } by {
            lemma_covered(all, j, j + 1);
            lemma_covered(all, j + 1, all.len() as int);
        }
        assert forall|j: int| 0 <= j < want.len() && (#[trigger] want[j]).0 implies old_text@.subrange(
            want[j].1 as int,
            want[j].2 as int,
        ) == new_text@.subrange(want[j].3 as int, want[j].4 as int) by {
            assert(all[j].0);
        }
        assert forall|j: int| 0 <= j <= want.len() implies old_start(want, j) == old_covered(all, j)
            && #[trigger] new_start(want, j) == new_covered(all, j) by {
            if j > 0 {
                assert(want[j - 1].2 == old_covered(all, j));
            }
        }
    }
    out
}

} // verus!
