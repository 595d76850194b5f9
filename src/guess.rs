//! Suggesting catalog entries for a fragment whose name is not a number.

use vstd::prelude::*;
use crate::catalog::PullRequest;
use crate::text::{
    byte_count, byte_len, chars_of, contains, contains_seq, is_ascii_ws, lowercase, lowercase_of, string_of,
};

verus! {

/// What `edit_distance::edit_distance` returns for `a` and `b`.
pub uninterp spec fn edit_distance_of(a: Seq<char>, b: Seq<char>) -> nat;

/// Relies on `edit_distance::edit_distance`: the Levenshtein distance, which
/// never exceeds the longer string's number of characters.
#[verifier::external_body]
fn distance(a: &str, b: &str) -> (r: usize)
    ensures
        r == edit_distance_of(a@, b@),
        r <= a@.len() || r <= b@.len(),
{
    edit_distance::edit_distance(a, b)
}

/// The words of `s`, split at ASCII white space, as `str::split_ascii_whitespace` gives them.
pub open spec fn words_of(s: Seq<char>) -> Seq<Seq<char>>
    decreases s.len(),
{
    if s.len() == 0 {
        seq![]
    } else {
        let init = words_of(s.drop_last());
        let c = s.last();
        if is_ascii_ws(c) {
            init
        } else if s.len() >= 2 && !is_ascii_ws(s[s.len() - 2]) && init.len() > 0 {
            init.update(init.len() - 1, init.last().push(c))
        } else {
            init.push(seq![c])
        }
    }
}

/// What one word of a title adds to its score against `name`.
pub open spec fn word_score(title: Seq<char>, name: Seq<char>, w: Seq<char>) -> nat {
    if contains_seq(lowercase_of(name), lowercase_of(w)) && byte_len(w) > 1 {
        byte_len(title) * 10
    } else {
        edit_distance_of(title, name)
    }
}

pub open spec fn score_sum(title: Seq<char>, name: Seq<char>, ws: Seq<Seq<char>>) -> nat
    decreases ws.len(),
{
    if ws.len() == 0 {
        0
    } else {
        score_sum(title, name, ws.drop_last()) + word_score(title, name, ws.last())
    }
}

/// A title's score against `name` is `score_numerator / score_denominator`.
pub open spec fn score_numerator(title: Seq<char>, name: Seq<char>) -> nat {
    score_sum(title, name, words_of(title))
}

pub open spec fn score_denominator(title: Seq<char>) -> nat {
    if words_of(title).len() == 0 {
        1
    } else {
        byte_len(title)
    }
}

/// `a` ranks before `b`: a higher score, or an equal score and an earlier place.
pub open spec fn ranks_before(nums: Seq<u64>, dens: Seq<u64>, a: int, b: int) -> bool {
    nums[a] * dens[b] > nums[b] * dens[a] || (nums[a] * dens[b] == nums[b] * dens[a] && a < b)
}

/// `r` holds the `min(limit, n)` best of the positions `0..n`, best first.
pub open spec fn is_top(r: Seq<usize>, nums: Seq<u64>, dens: Seq<u64>, limit: nat) -> bool {
    let n = nums.len();
    &&& r.len() == if n < limit { n } else { limit }
    &&& forall|i: int| 0 <= i < r.len() ==> (#[trigger] r[i]) < n
    &&& forall|i: int, j: int|
        0 <= i < j < r.len() ==> ranks_before(nums, dens, #[trigger] r[i] as int, #[trigger] r[j] as int)
    &&& forall|x: int, i: int|
        #![trigger r[i], r.contains(x as usize)]
        0 <= x < n && !r.contains(x as usize) && 0 <= i < r.len() ==> ranks_before(
            nums,
            dens,
            r[i] as int,
            x,
        )
}

proof fn lemma_cross_transitive(na: int, da: int, nb: int, db: int, nc: int, dc: int)
    requires
        da > 0,
        db > 0,
        dc > 0,
        na * db >= nb * da,
        nb * dc >= nc * db,
    ensures
        na * dc >= nc * da,
        (na * db > nb * da || nb * dc > nc * db) ==> na * dc > nc * da,
{
    assert(db * (na * dc - nc * da) == dc * (na * db - nb * da) + da * (nb * dc - nc * db))
        by (nonlinear_arith);
    assert(dc * (na * db - nb * da) >= 0) by (nonlinear_arith)
        requires
            dc > 0,
            na * db - nb * da >= 0,
    ;
    assert(da * (nb * dc - nc * db) >= 0) by (nonlinear_arith)
        requires
            da > 0,
            nb * dc - nc * db >= 0,
    ;
    assert((na * db > nb * da) ==> dc * (na * db - nb * da) > 0) by (nonlinear_arith)
        requires
            dc > 0,
    ;
    assert((nb * dc > nc * db) ==> da * (nb * dc - nc * db) > 0) by (nonlinear_arith)
        requires
            da > 0,
    ;
    let k = na * dc - nc * da;
    assert(db * k >= 0 ==> k >= 0) by (nonlinear_arith)
        requires
            db > 0,
    ;
    assert(db * k > 0 ==> k > 0) by (nonlinear_arith)
        requires
            db > 0,
    ;
}

proof fn lemma_ranks_transitive(nums: Seq<u64>, dens: Seq<u64>, a: int, b: int, c: int)
    requires
        0 <= a < nums.len(),
        0 <= b < nums.len(),
        0 <= c < nums.len(),
        nums.len() == dens.len(),
        forall|i: int| 0 <= i < dens.len() ==> #[trigger] dens[i] > 0,
        ranks_before(nums, dens, a, b),
        ranks_before(nums, dens, b, c),
    ensures
        ranks_before(nums, dens, a, c),
{
    assert(dens[a] > 0 && dens[b] > 0 && dens[c] > 0);
    lemma_cross_transitive(
        nums[a] as int,
        dens[a] as int,
        nums[b] as int,
        dens[b] as int,
        nums[c] as int,
        dens[c] as int,
    );
    if nums[a] * dens[c] == nums[c] * dens[a] {
        assert(nums[a] * dens[b] == nums[b] * dens[a] && nums[b] * dens[c] == nums[c] * dens[b]);
    }
}

/// Whether position `a` ranks before `b`.
fn ranks_before_exec(nums: &Vec<u64>, dens: &Vec<u64>, a: usize, b: usize) -> (r: bool)
    requires
        a < nums@.len(),
        b < nums@.len(),
        nums@.len() == dens@.len(),
    ensures
        r == ranks_before(nums@, dens@, a as int, b as int),
{
    let na = nums[a] as u128;
    let nb = nums[b] as u128;
    let da = dens[a] as u128;
    let db = dens[b] as u128;
    assert(na * db <= 0xFFFF_FFFF_FFFF_FFFFu128 * 0xFFFF_FFFF_FFFF_FFFFu128) by (nonlinear_arith)
        requires
            na <= 0xFFFF_FFFF_FFFF_FFFFu128,
            db <= 0xFFFF_FFFF_FFFF_FFFFu128,
    ;
    assert(nb * da <= 0xFFFF_FFFF_FFFF_FFFFu128 * 0xFFFF_FFFF_FFFF_FFFFu128) by (nonlinear_arith)
        requires
            nb <= 0xFFFF_FFFF_FFFF_FFFFu128,
            da <= 0xFFFF_FFFF_FFFF_FFFFu128,
    ;
    let left = na * db;
    let right = nb * da;
    left > right || (left == right && a < b)
}

/// The best `limit` positions of `0..n` by score `nums[i] / dens[i]`, best
/// first; equal scores keep their order.
pub fn top_ranked(nums: &Vec<u64>, dens: &Vec<u64>, limit: usize) -> (r: Vec<usize>)
    requires
        nums@.len() == dens@.len(),
        forall|i: int| 0 <= i < dens@.len() ==> #[trigger] dens@[i] > 0,
    ensures
        is_top(r@, nums@, dens@, limit as nat),
{
    let n = nums.len();
    let mut order: Vec<usize> = Vec::new();
    let mut x: usize = 0;
    while x < n
        invariant
            x <= n,
            n == nums@.len(),
            nums@.len() == dens@.len(),
            forall|i: int| 0 <= i < dens@.len() ==> #[trigger] dens@[i] > 0,
            order@.len() == x,
            forall|i: int| 0 <= i < order@.len() ==> (#[trigger] order@[i]) < x,
            forall|y: int| 0 <= y < x ==> #[trigger] order@.contains(y as usize),
            forall|i: int, j: int|
                0 <= i < j < order@.len() ==> ranks_before(
                    nums@,
                    dens@,
                    #[trigger] order@[i] as int,
                    #[trigger] order@[j] as int,
                ),
        decreases n - x,
    {
        let mut j: usize = 0;
        while j < order.len() && !ranks_before_exec(nums, dens, x, order[j])
            invariant
                j <= order@.len(),
                x < n,
                n == nums@.len(),
                nums@.len() == dens@.len(),
                forall|i: int| 0 <= i < order@.len() ==> (#[trigger] order@[i]) < x,
                forall|i: int| 0 <= i < j ==> !ranks_before(nums@, dens@, x as int, #[trigger] order@[i] as int),
            decreases order.len() - j,
        {
            j = j + 1;
        }
        let ghost old_order = order@;
        order.insert(j, x);
        proof {
            assert forall|i: int| 0 <= i < order@.len() implies (#[trigger] order@[i]) < x + 1 by {
                if i < j {
                    assert(order@[i] == old_order[i]);
                } else if i > j {
                    assert(order@[i] == old_order[i - 1]);
                }
            }
            assert forall|y: int| 0 <= y < x + 1 implies #[trigger] order@.contains(y as usize) by {
                if y == x {
                    assert(order@[j as int] == x);
                } else {
                    assert(old_order.contains(y as usize));
                    let i = choose|i: int| 0 <= i < old_order.len() && old_order[i] == y as usize;
                    if i < j {
                        assert(order@[i] == y as usize);
                    } else {
                        assert(order@[i + 1] == y as usize);
                    }
                }
            }
            assert forall|a: int, b: int|
                0 <= a < b < order@.len() implies ranks_before(
                nums@,
                dens@,
                #[trigger] order@[a] as int,
                #[trigger] order@[b] as int,
            ) by {
                if a < j && b < j {
                    assert(order@[a] == old_order[a] && order@[b] == old_order[b]);
                } else if a < j && b == j {
                    assert(order@[a] == old_order[a]);
                    assert(!ranks_before(nums@, dens@, x as int, old_order[a] as int));
                    assert(old_order[a] < x);
                } else if a < j && b > j {
                    assert(order@[a] == old_order[a] && order@[b] == old_order[b - 1]);
                } else if a == j {
                    assert(order@[b] == old_order[b - 1]);
                    if b - 1 > j {
                        assert(ranks_before(nums@, dens@, old_order[j as int] as int, old_order[b - 1] as int));
                        lemma_ranks_transitive(nums@, dens@, x as int, old_order[j as int] as int, old_order[b - 1] as int);
                    }
                } else {
                    assert(order@[a] == old_order[a - 1] && order@[b] == old_order[b - 1]);
                }
            }
        }
        x = x + 1;
    }
    let mut r: Vec<usize> = Vec::new();
    let mut i: usize = 0;
    while i < limit && i < n
        invariant
            i <= n,
            n == nums@.len(),
            order@.len() == n,
            i <= limit,
            r@ == order@.subrange(0, i as int),
        decreases n - i,
    {
        r.push(order[i]);
        i = i + 1;
    }
    proof {
        assert forall|y: int, k: int|
            #![trigger r@[k], r@.contains(y as usize)]
            0 <= y < n && !r@.contains(y as usize) && 0 <= k < r@.len() implies ranks_before(
            nums@,
            dens@,
            r@[k] as int,
            y,
        ) by {
            assert(order@.contains(y as usize));
            let m = choose|m: int| 0 <= m < order@.len() && order@[m] == y as usize;
            if m < r@.len() {
                assert(r@[m] == y as usize);
            }
            assert(r@[k] == order@[k]);
        }
    }
    r
}

proof fn lemma_bytes_nonempty(s: Seq<char>)
    requires
        s.len() > 0,
    ensures
        byte_len(s) > 0,
{
    assert(vstd::utf8::encode_scalar(s[0] as u32).len() > 0);
}

proof fn lemma_words_len(s: Seq<char>)
    ensures
        words_of(s).len() <= s.len(),
    decreases s.len(),
{
    if s.len() > 0 {
        lemma_words_len(s.drop_last());
    }
}

/// The words of `cs`, split at ASCII white space.
pub fn split_words(cs: &Vec<char>) -> (r: Vec<Vec<char>>)
    ensures
        r@.map_values(|w: Vec<char>| w@) == words_of(cs@),
{
    let mut words: Vec<Vec<char>> = Vec::new();
    let mut i: usize = 0;
    assert(cs@.subrange(0, 0) =~= Seq::<char>::empty());
    while i < cs.len()
        invariant
            i <= cs@.len(),
            words@.map_values(|w: Vec<char>| w@) == words_of(cs@.subrange(0, i as int)),
        decreases cs.len() - i,
    {
        let c = cs[i];
        let ghost s = cs@.subrange(0, i + 1);
        let ghost before = words@.map_values(|w: Vec<char>| w@);
        assert(s.drop_last() == cs@.subrange(0, i as int));
        assert(s.last() == c);
        let ws = c == ' ' || c == '\t' || c == '\n' || c == '\r' || c == '\u{0C}';
        if ws {
        } else if i >= 1 && !(cs[i - 1] == ' ' || cs[i - 1] == '\t' || cs[i - 1] == '\n'
            || cs[i - 1] == '\r' || cs[i - 1] == '\u{0C}') && words.len() > 0 {
            assert(s[s.len() - 2] == cs@[i - 1]);
            let mut last = match words.pop() {
                Some(w) => w,
                None => Vec::new(),
            };
            let ghost lv = last@;
            last.push(c);
            words.push(last);
            assert(words@.map_values(|w: Vec<char>| w@) =~= before.update(
                before.len() - 1,
                lv.push(c),
            ));
        } else {
            proof {
                if i >= 1 {
                    assert(s[s.len() - 2] == cs@[i - 1]);
                }
            }
            let w = vec![c];
            assert(w@ =~= seq![c]);
            words.push(w);
            assert(words@.map_values(|w: Vec<char>| w@) =~= before.push(seq![c]));
        }
        i = i + 1;
    }
    assert(cs@.subrange(0, cs@.len() as int) == cs@);
    words
}

/// Lengths under which every score and every product of two fits in memory words.
pub open spec fn small_text(s: Seq<char>) -> bool {
    s.len() < 0x1000_0000 && byte_len(s) < 0x1000_0000
}

/// The score of `title` against `name`, as numerator and denominator.
pub fn request_score(title: &str, name: &str) -> (r: (u64, u64))
    requires
        small_text(title@),
        small_text(name@),
    ensures
        r.0 == score_numerator(title@, name@),
        r.1 == score_denominator(title@),
        r.1 > 0,
{
    let cs = chars_of(title);
    let words = split_words(&cs);
    let ghost wv = words@.map_values(|w: Vec<char>| w@);
    proof {
        lemma_words_len(title@);
    }
    let tl = byte_count(title);
    let ed = distance(title, name);
    let lname = lowercase(name);
    let mut sum: u64 = 0;
    let mut k: usize = 0;
    assert(wv.subrange(0, 0) =~= Seq::<Seq<char>>::empty());
    while k < words.len()
        invariant
            k <= words@.len(),
            wv == words@.map_values(|w: Vec<char>| w@),
            wv == words_of(title@),
            words@.len() <= title@.len(),
            small_text(title@),
            small_text(name@),
            tl == byte_len(title@),
            ed == edit_distance_of(title@, name@),
            ed <= title@.len() || ed <= name@.len(),
            lname@ == lowercase_of(name@),
            sum == score_sum(title@, name@, wv.subrange(0, k as int)),
            sum <= k * 0x1_0000_0000,
        decreases words.len() - k,
    {
        let w = string_of(&words[k]);
        let lw = lowercase(w.as_str());
        let found = contains(lname.as_str(), lw.as_str());
        let wl = byte_count(w.as_str());
        assert(wl == byte_len(w@));
        let contribution: u64 = if found && wl > 1 {
            (tl as u64) * 10
        } else {
            ed as u64
        };
        assert(contribution == word_score(title@, name@, w@));
        assert(wv.subrange(0, k + 1).drop_last() == wv.subrange(0, k as int));
        assert(wv[k as int] == w@);
        sum = sum + contribution;
        k = k + 1;
    }
    assert(wv.subrange(0, wv.len() as int) == wv);
    let den: u64 = if words.len() == 0 {
        1
    } else {
        proof {
            lemma_bytes_nonempty(title@);
        }
        tl as u64
    };
    (sum, den)
}

pub open spec fn numerators(prs: Seq<PullRequest>, name: Seq<char>) -> Seq<u64> {
    prs.map_values(|p: PullRequest| score_numerator(p.title@, name) as u64)
}

pub open spec fn denominators(prs: Seq<PullRequest>) -> Seq<u64> {
    prs.map_values(|p: PullRequest| score_denominator(p.title@) as u64)
}

/// Whether every title, and `name`, is within the sizes that scoring handles.
pub open spec fn scorable(prs: Seq<PullRequest>, name: Seq<char>) -> bool {
    small_text(name) && forall|i: int| 0 <= i < prs.len() ==> small_text(#[trigger] prs[i].title@)
}

/// Positions of the (at most five) catalog entries that best match `name`,
/// best first; `None` when the catalog is empty.
pub fn guess_pull_request(name: &str, pull_requests: &Vec<PullRequest>) -> (r: Option<Vec<usize>>)
    requires
        scorable(pull_requests@, name@),
    ensures
        r is None <==> pull_requests@.len() == 0,
        r matches Some(v) ==> is_top(
            v@,
            numerators(pull_requests@, name@),
            denominators(pull_requests@),
            5,
        ),
{
    if pull_requests.len() == 0 {
        return None;
    }
    let mut nums: Vec<u64> = Vec::new();
    let mut dens: Vec<u64> = Vec::new();
    let mut i: usize = 0;
    while i < pull_requests.len()
        invariant
            i <= pull_requests@.len(),
            scorable(pull_requests@, name@),
            nums@ == numerators(pull_requests@, name@).subrange(0, i as int),
            dens@ == denominators(pull_requests@).subrange(0, i as int),
            forall|k: int| 0 <= k < dens@.len() ==> #[trigger] dens@[k] > 0,
        decreases pull_requests.len() - i,
    {
        let (num, den) = request_score(pull_requests[i].title.as_str(), name);
        nums.push(num);
        dens.push(den);
        i = i + 1;
        assert(nums@ =~= numerators(pull_requests@, name@).subrange(0, i as int));
        assert(dens@ =~= denominators(pull_requests@).subrange(0, i as int));
    }
    assert(nums@ =~= numerators(pull_requests@, name@));
    assert(dens@ =~= denominators(pull_requests@));
    Some(top_ranked(&nums, &dens, 5))
}

proof fn lemma_top_agree_upto(
    r1: Seq<usize>,
    r2: Seq<usize>,
    nums: Seq<u64>,
    dens: Seq<u64>,
    limit: nat,
    i: int,
)
    requires
        nums.len() == dens.len(),
        forall|k: int| 0 <= k < dens.len() ==> #[trigger] dens[k] > 0,
        is_top(r1, nums, dens, limit),
        is_top(r2, nums, dens, limit),
        0 <= i < r1.len(),
    ensures
        forall|k: int| 0 <= k <= i ==> #[trigger] r1[k] == r2[k],
    decreases i,
{
    if i > 0 {
        lemma_top_agree_upto(r1, r2, nums, dens, limit, i - 1);
    }
    let a = r1[i];
    let b = r2[i];
    if a != b {
        assert(ranks_before(nums, dens, a as int, b as int)) by {
            if r1.contains(b) {
                let p = choose|p: int| 0 <= p < r1.len() && r1[p] == b;
                if p < i {
                    assert(r1[p] == r2[p]);
                    assert(ranks_before(nums, dens, r2[p] as int, r2[i] as int));
                } else {
                    assert(p != i);
                }
            } else {
                assert((b as int) < nums.len());
                assert(!r1.contains((b as int) as usize));
                assert(ranks_before(nums, dens, r1[i] as int, b as int));
            }
        }
        assert(ranks_before(nums, dens, b as int, a as int)) by {
            if r2.contains(a) {
                let q = choose|q: int| 0 <= q < r2.len() && r2[q] == a;
                if q < i {
                    assert(r1[q] == r2[q]);
                    assert(ranks_before(nums, dens, r1[q] as int, r1[i] as int));
                } else {
                    assert(q != i);
                }
            } else {
                assert((a as int) < nums.len());
                assert(!r2.contains((a as int) as usize));
                assert(ranks_before(nums, dens, r2[i] as int, a as int));
            }
        }
        lemma_ranks_transitive(nums, dens, a as int, b as int, a as int);
    }
}

/// The suggestions are fixed by the scores alone: two results that both list
/// the best `limit` entries, best first, are the same list.
pub proof fn law_top_ranked_unique(
    r1: Seq<usize>,
    r2: Seq<usize>,
    nums: Seq<u64>,
    dens: Seq<u64>,
    limit: nat,
)
    requires
        nums.len() == dens.len(),
        forall|k: int| 0 <= k < dens.len() ==> #[trigger] dens[k] > 0,
        is_top(r1, nums, dens, limit),
        is_top(r2, nums, dens, limit),
    ensures
        r1 == r2,
{
    if r1.len() > 0 {
        lemma_top_agree_upto(r1, r2, nums, dens, limit, r1.len() - 1);
    }
    assert(r1 =~= r2);
}

/// Guessing twice for the same name and catalog gives the same suggestions.
pub proof fn law_guess_reproducible(
    prs: Seq<PullRequest>,
    name: Seq<char>,
    g1: Seq<usize>,
    g2: Seq<usize>,
)
    requires
        scorable(prs, name),
        is_top(g1, numerators(prs, name), denominators(prs), 5),
        is_top(g2, numerators(prs, name), denominators(prs), 5),
    ensures
        g1 == g2,
{
    let dens = denominators(prs);
    assert forall|k: int| 0 <= k < dens.len() implies #[trigger] dens[k] > 0 by {
        assert(small_text(prs[k].title@));
        if words_of(prs[k].title@).len() > 0 {
            lemma_words_len(prs[k].title@);
            lemma_bytes_nonempty(prs[k].title@);
        }
    }
    law_top_ranked_unique(g1, g2, numerators(prs, name), dens, 5);
}

} // verus!
