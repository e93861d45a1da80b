//! The enumerator: an outer pass over the alphabet, each entry's stem hashed
//! once, and an inner pass over the numeric range, each suffix rendered in
//! place and fed through the hash continuation. Matches are collected in
//! discovery order — entry-major, numeric-ascending — and the search stops at
//! the first match unless the configuration asks it to continue.

use vstd::prelude::*;
use crate::digits::{fill_digits, rendered};
use crate::hash::{fnv1_32, fnv1_continue, fnv1_of, lemma_continue_matches_scratch};
use crate::space::SearchConfig;

verus! {

/// ASCII case folding of one byte: `'A'..='Z'` move to lowercase, every
/// other byte is kept, so multi-byte encoded characters pass unchanged.
pub open spec fn fold_byte_spec(b: u8) -> u8 {
    if 65 <= b <= 90 {
        (b + 32) as u8
    } else {
        b
    }
}

/// ASCII case folding of a byte sequence.
pub open spec fn folded(s: Seq<u8>) -> Seq<u8> {
    Seq::new(s.len(), |i: int| fold_byte_spec(s[i]))
}

/// The stem of alphabet entry `i`: the folded prefix followed by the folded
/// entry; every candidate of that entry begins with it.
pub open spec fn stem_spec(cfg: SearchConfig, i: int) -> Seq<u8> {
    folded(cfg.prefix@) + folded(cfg.alphabet@[i]@)
}

/// The full candidate for entry `i` and numeric suffix `n`.
pub open spec fn candidate_spec(cfg: SearchConfig, i: int, n: nat) -> Seq<u8> {
    stem_spec(cfg, i) + rendered(n, cfg.digits as nat)
}

/// The candidates `stem ++ rendered(n, w)` for `n` in `[lo, hi)`, in
/// ascending order of `n`, whose hash equals `target`.
pub open spec fn range_matches(target: u32, stem: Seq<u8>, w: nat, lo: int, hi: int) -> Seq<
    Seq<u8>,
>
    decreases hi - lo,
{
    if lo < 0 || lo >= hi {
        Seq::empty()
    } else {
        let c = stem + rendered(lo as nat, w);
        let rest = range_matches(target, stem, w, lo + 1, hi);
        if fnv1_of(c) == target {
            seq![c] + rest
        } else {
            rest
        }
    }
}

/// The matches of the whole space from alphabet entry `i` on, in discovery
/// order.
pub open spec fn matches_from(cfg: SearchConfig, target: u32, i: int) -> Seq<Seq<u8>>
    decreases cfg.alphabet@.len() - i,
{
    if i < 0 || i >= cfg.alphabet@.len() {
        Seq::empty()
    } else {
        range_matches(
            target,
            stem_spec(cfg, i),
            cfg.digits as nat,
            cfg.min_num as int,
            cfg.effective_max_spec() as int,
        ) + matches_from(cfg, target, i + 1)
    }
}

/// Every match in the space, in discovery order.
pub open spec fn all_matches(cfg: SearchConfig, target: u32) -> Seq<Seq<u8>> {
    matches_from(cfg, target, 0)
}

/// Every candidate `stem ++ rendered(n, w)` for `n` in `[lo, hi)`, in
/// ascending order of `n`, match or not.
pub open spec fn range_candidates(stem: Seq<u8>, w: nat, lo: int, hi: int) -> Seq<Seq<u8>>
    decreases hi - lo,
{
    if lo < 0 || lo >= hi {
        Seq::empty()
    } else {
        seq![stem + rendered(lo as nat, w)] + range_candidates(stem, w, lo + 1, hi)
    }
}

/// Every candidate of the space from alphabet entry `i` on, in discovery
/// order.
pub open spec fn candidates_from(cfg: SearchConfig, i: int) -> Seq<Seq<u8>>
    decreases cfg.alphabet@.len() - i,
{
    if i < 0 || i >= cfg.alphabet@.len() {
        Seq::empty()
    } else {
        range_candidates(
            stem_spec(cfg, i),
            cfg.digits as nat,
            cfg.min_num as int,
            cfg.effective_max_spec() as int,
        ) + candidates_from(cfg, i + 1)
    }
}

/// The whole candidate space in discovery order: entry-major,
/// numeric-ascending.
pub open spec fn all_candidates(cfg: SearchConfig) -> Seq<Seq<u8>> {
    candidates_from(cfg, 0)
}

/// The predicate a candidate must meet: its hash equals the target.
pub open spec fn hits(target: u32) -> spec_fn(Seq<u8>) -> bool {
    |c: Seq<u8>| fnv1_of(c) == target
}

proof fn lemma_range_filter(target: u32, stem: Seq<u8>, w: nat, lo: int, hi: int)
    ensures
        range_matches(target, stem, w, lo, hi) == range_candidates(stem, w, lo, hi).filter(
            hits(target),
        ),
    decreases hi - lo,
{
    reveal(Seq::filter);
    let p = hits(target);
    if lo < 0 || lo >= hi {
        assert(range_candidates(stem, w, lo, hi).filter(p) =~= Seq::<Seq<u8>>::empty());
    } else {
        lemma_range_filter(target, stem, w, lo + 1, hi);
        let c = stem + rendered(lo as nat, w);
        let restc = range_candidates(stem, w, lo + 1, hi);
        Seq::filter_distributes_over_add(seq![c], restc, p);
        assert(seq![c].drop_last() =~= Seq::<Seq<u8>>::empty());
        assert(seq![c].drop_last().filter(p) =~= Seq::<Seq<u8>>::empty());
        assert(seq![c].last() == c);
        if p(c) {
            assert(seq![c].filter(p) =~= seq![c]);
        } else {
            assert(seq![c].filter(p) =~= Seq::<Seq<u8>>::empty());
            assert(range_matches(target, stem, w, lo, hi) =~= Seq::<Seq<u8>>::empty() + restc.filter(
                p,
            ));
        }
    }
}

proof fn lemma_from_filter(cfg: SearchConfig, target: u32, i: int)
    ensures
        matches_from(cfg, target, i) == candidates_from(cfg, i).filter(hits(target)),
    decreases cfg.alphabet@.len() - i,
{
    reveal(Seq::filter);
    let p = hits(target);
    if i < 0 || i >= cfg.alphabet@.len() {
        assert(candidates_from(cfg, i).filter(p) =~= Seq::<Seq<u8>>::empty());
    } else {
        lemma_from_filter(cfg, target, i + 1);
        lemma_range_filter(
            target,
            stem_spec(cfg, i),
            cfg.digits as nat,
            cfg.min_num as int,
            cfg.effective_max_spec() as int,
        );
        Seq::filter_distributes_over_add(
            range_candidates(
                stem_spec(cfg, i),
                cfg.digits as nat,
                cfg.min_num as int,
                cfg.effective_max_spec() as int,
            ),
            candidates_from(cfg, i + 1),
            p,
        );
    }
}

/// Matches come out in discovery order: the match sequence is exactly the
/// order-preserving filter of the full candidate enumeration — entry-major,
/// numeric-ascending — by the predicate "hashes to the target".
pub proof fn lemma_matches_in_discovery_order(cfg: SearchConfig, target: u32)
    ensures
        all_matches(cfg, target) == all_candidates(cfg).filter(hits(target)),
{
    lemma_from_filter(cfg, target, 0);
}

/// Every reported match really hashes to the target.
pub proof fn lemma_every_match_hits(cfg: SearchConfig, target: u32, k: int)
    requires
        0 <= k < all_matches(cfg, target).len(),
    ensures
        fnv1_of(all_matches(cfg, target)[k]) == target,
{
    lemma_matches_in_discovery_order(cfg, target);
    all_candidates(cfg).lemma_filter_pred(hits(target), k);
}

proof fn lemma_range_candidates_index(stem: Seq<u8>, w: nat, lo: int, hi: int, n: int)
    requires
        0 <= lo <= n < hi,
    ensures
        range_candidates(stem, w, lo, hi).len() > n - lo,
        range_candidates(stem, w, lo, hi)[n - lo] == stem + rendered(n as nat, w),
    decreases n - lo,
{
    if n > lo {
        lemma_range_candidates_index(stem, w, lo + 1, hi, n);
    }
}

proof fn lemma_candidates_from_contains(cfg: SearchConfig, i0: int, i: int, n: nat)
    requires
        0 <= i0 <= i < cfg.alphabet@.len(),
        cfg.min_num <= n < cfg.effective_max_spec(),
    ensures
        candidates_from(cfg, i0).contains(candidate_spec(cfg, i, n)),
    decreases i - i0,
{
    let c = candidate_spec(cfg, i, n);
    let head = range_candidates(
        stem_spec(cfg, i0),
        cfg.digits as nat,
        cfg.min_num as int,
        cfg.effective_max_spec() as int,
    );
    let rest = candidates_from(cfg, i0 + 1);
    if i0 == i {
        lemma_range_candidates_index(
            stem_spec(cfg, i),
            cfg.digits as nat,
            cfg.min_num as int,
            cfg.effective_max_spec() as int,
            n as int,
        );
        let idx = n - cfg.min_num;
        assert(candidates_from(cfg, i0)[idx as int] == c);
    } else {
        lemma_candidates_from_contains(cfg, i0 + 1, i, n);
        let j = choose|j: int| 0 <= j < rest.len() && rest[j] == c;
        assert(candidates_from(cfg, i0)[head.len() + j] == c);
    }
}

/// No hit is passed over: a candidate of the space that hashes to the target
/// appears among the matches.
pub proof fn lemma_hit_is_reported(cfg: SearchConfig, target: u32, i: int, n: nat)
    requires
        0 <= i < cfg.alphabet@.len(),
        cfg.min_num <= n < cfg.effective_max_spec(),
        fnv1_of(candidate_spec(cfg, i, n)) == target,
    ensures
        all_matches(cfg, target).contains(candidate_spec(cfg, i, n)),
{
    lemma_matches_in_discovery_order(cfg, target);
    lemma_candidates_from_contains(cfg, 0, i, n);
    let c = candidate_spec(cfg, i, n);
    let cands = all_candidates(cfg);
    let idx = choose|idx: int| 0 <= idx < cands.len() && cands[idx] == c;
    cands.lemma_filter_contains(hits(target), idx);
}

proof fn lemma_range_candidates_len(stem: Seq<u8>, w: nat, lo: int, hi: int)
    requires
        0 <= lo,
    ensures
        range_candidates(stem, w, lo, hi).len() == if lo < hi {
            hi - lo
        } else {
            0
        },
    decreases hi - lo,
{
    if lo < hi {
        lemma_range_candidates_len(stem, w, lo + 1, hi);
    }
}

proof fn lemma_candidates_from_len(cfg: SearchConfig, i: int)
    requires
        0 <= i <= cfg.alphabet@.len(),
    ensures
        candidates_from(cfg, i).len() == (cfg.alphabet@.len() - i) * cfg.per_entry_spec(),
    decreases cfg.alphabet@.len() - i,
{
    let per = cfg.per_entry_spec() as int;
    let remaining = cfg.alphabet@.len() - i;
    if i == cfg.alphabet@.len() {
        assert(0 * per == 0) by {
            vstd::arithmetic::mul::lemma_mul_basics(per);
        }
    } else {
        lemma_candidates_from_len(cfg, i + 1);
        lemma_range_candidates_len(
            stem_spec(cfg, i),
            cfg.digits as nat,
            cfg.min_num as int,
            cfg.effective_max_spec() as int,
        );
        assert(remaining * per == (remaining - 1) * per + 1 * per) by {
            vstd::arithmetic::mul::lemma_mul_is_distributive_add_other_way(per, remaining - 1, 1);
        }
        assert(1 * per == per) by {
            vstd::arithmetic::mul::lemma_mul_basics(per);
        }
    }
}

/// The derived total is exact: the candidate enumeration holds precisely
/// `alphabet length * per-entry count` candidates.
pub proof fn lemma_total_counts_candidates(cfg: SearchConfig)
    ensures
        all_candidates(cfg).len() == cfg.total_spec(),
{
    lemma_candidates_from_len(cfg, 0);
}

proof fn lemma_range_empty(target: u32, stem: Seq<u8>, w: nat, lo: int, hi: int)
    requires
        0 <= lo,
    ensures
        range_matches(target, stem, w, lo, hi).len() == 0 <==> (forall|n: nat|
            lo <= n < hi ==> fnv1_of(stem + #[trigger] rendered(n, w)) != target),
    decreases hi - lo,
{
    if lo < hi {
        lemma_range_empty(target, stem, w, lo + 1, hi);
        let c = stem + rendered(lo as nat, w);
        if range_matches(target, stem, w, lo, hi).len() == 0 {
            assert forall|n: nat| lo <= n < hi implies fnv1_of(stem + #[trigger] rendered(n, w))
                != target by {
                if n == lo {
                    assert(fnv1_of(c) != target);
                }
            }
        } else {
            if forall|n: nat| lo <= n < hi ==> fnv1_of(stem + #[trigger] rendered(n, w)) != target {
                assert(fnv1_of(stem + rendered(lo as nat, w)) != target);
                assert(range_matches(target, stem, w, lo + 1, hi).len() == 0);
                assert(false);
            }
        }
    }
}

proof fn lemma_from_empty(cfg: SearchConfig, target: u32, i: int)
    requires
        0 <= i,
    ensures
        matches_from(cfg, target, i).len() == 0 <==> (forall|j: int, n: nat|
            i <= j < cfg.alphabet@.len() && cfg.min_num <= n < cfg.effective_max_spec()
                ==> fnv1_of(#[trigger] candidate_spec(cfg, j, n)) != target),
    decreases cfg.alphabet@.len() - i,
{
    let w = cfg.digits as nat;
    let emax = cfg.effective_max_spec() as int;
    if i < cfg.alphabet@.len() {
        lemma_from_empty(cfg, target, i + 1);
        lemma_range_empty(target, stem_spec(cfg, i), w, cfg.min_num as int, emax);
        let rm = range_matches(target, stem_spec(cfg, i), w, cfg.min_num as int, emax);
        assert(matches_from(cfg, target, i).len() == rm.len() + matches_from(
            cfg,
            target,
            i + 1,
        ).len());
        if matches_from(cfg, target, i).len() == 0 {
            assert forall|j: int, n: nat|
                i <= j < cfg.alphabet@.len() && cfg.min_num <= n
                    < cfg.effective_max_spec() implies fnv1_of(
                #[trigger] candidate_spec(cfg, j, n),
            ) != target by {
                if j == i {
                    assert(candidate_spec(cfg, i, n) == stem_spec(cfg, i) + rendered(n, w));
                    assert(fnv1_of(stem_spec(cfg, i) + rendered(n, w)) != target);
                }
            }
        } else {
            if forall|j: int, n: nat|
                i <= j < cfg.alphabet@.len() && cfg.min_num <= n < cfg.effective_max_spec()
                    ==> fnv1_of(#[trigger] candidate_spec(cfg, j, n)) != target {
                assert forall|n: nat|
                    cfg.min_num <= n < cfg.effective_max_spec() implies fnv1_of(
                    stem_spec(cfg, i) + #[trigger] rendered(n, w),
                ) != target by {
                    assert(fnv1_of(candidate_spec(cfg, i, n)) != target);
                }
                assert(rm.len() == 0);
                assert(matches_from(cfg, target, i + 1).len() == 0);
                assert(false);
            }
        }
    }
}

/// The space holds no candidate hashing to the target exactly when the match
/// sequence is empty; with the enumerator's contract, an empty result then
/// signals "not found within the configured space", not an error.
pub proof fn lemma_not_found_is_empty(cfg: SearchConfig, target: u32)
    ensures
        all_matches(cfg, target).len() == 0 <==> (forall|i: int, n: nat|
            0 <= i < cfg.alphabet@.len() && cfg.min_num <= n < cfg.effective_max_spec()
                ==> fnv1_of(#[trigger] candidate_spec(cfg, i, n)) != target),
{
    lemma_from_empty(cfg, target, 0);
}

/// Folds one byte to ASCII lowercase.
pub fn fold_byte(b: u8) -> (r: u8)
    ensures
        r == fold_byte_spec(b),
{
    if 65 <= b && b <= 90 {
        b + 32
    } else {
        b
    }
}

/// Appends a copy of `src` to `out`.
fn push_bytes(out: &mut Vec<u8>, src: &Vec<u8>)
    ensures
        final(out)@ == old(out)@ + src@,
{
    let mut i: usize = 0;
    proof {
        assert(out@ =~= old(out)@ + src@.take(0));
    }
    while i < src.len()
        invariant
            i <= src.len(),
            out@ == old(out)@ + src@.take(i as int),
        decreases src.len() - i,
    {
        out.push(src[i]);
        proof {
            assert(old(out)@ + src@.take(i as int + 1) =~= (old(out)@ + src@.take(
                i as int,
            )).push(src@[i as int]));
        }
        i = i + 1;
    }
    proof {
        assert(src@.take(src@.len() as int) =~= src@);
    }
}

/// Appends the folded bytes of `src` to `out`.
fn push_folded(out: &mut Vec<u8>, src: &Vec<u8>)
    ensures
        final(out)@ == old(out)@ + folded(src@),
{
    let mut i: usize = 0;
    proof {
        assert(out@ =~= old(out)@ + folded(src@).take(0));
    }
    while i < src.len()
        invariant
            i <= src.len(),
            out@ == old(out)@ + folded(src@).take(i as int),
        decreases src.len() - i,
    {
        let b = fold_byte(src[i]);
        out.push(b);
        proof {
            assert(old(out)@ + folded(src@).take(i as int + 1) =~= (old(out)@ + folded(
                src@,
            ).take(i as int)).push(fold_byte_spec(src@[i as int])));
        }
        i = i + 1;
    }
    proof {
        assert(folded(src@).take(src@.len() as int) =~= folded(src@));
    }
}

/// Reconstructs the full candidate: the stem followed by the rendered
/// digits. Called only on a hit, never in the hot loop.
fn make_candidate(stem: &Vec<u8>, digits_buf: &Vec<u8>) -> (out: Vec<u8>)
    ensures
        out@ == stem@ + digits_buf@,
{
    let mut out: Vec<u8> = Vec::new();
    push_bytes(&mut out, stem);
    push_bytes(&mut out, digits_buf);
    proof {
        assert((Seq::<u8>::empty() + stem@) + digits_buf@ =~= stem@ + digits_buf@);
    }
    out
}

/// Builds the stem of alphabet entry `i`: the case-folded prefix followed by
/// the case-folded entry. Hashing it once gives the partial state every
/// suffix of that entry continues from.
pub fn stem_of(config: &SearchConfig, i: usize) -> (stem: Vec<u8>)
    requires
        i < config.alphabet@.len(),
    ensures
        stem@ == stem_spec(*config, i as int),
{
    let mut stem: Vec<u8> = Vec::new();
    push_folded(&mut stem, &config.prefix);
    push_folded(&mut stem, &config.alphabet[i]);
    proof {
        assert(stem@ =~= stem_spec(*config, i as int));
    }
    stem
}

/// Scans the numeric suffixes `[lo, hi)` for one stem, whose precomputed
/// hash state is `partial`, appending each match to `results` in ascending
/// order. Returns true exactly when a match ended the search early: with
/// `continue_after_match` unset, the first match is appended and the scan
/// stops. The digit buffer is allocated once here and overwritten in place
/// each iteration.
pub fn search_char_range(
    target: u32,
    partial: u32,
    stem: &Vec<u8>,
    width: usize,
    lo: u64,
    hi: u64,
    continue_after_match: bool,
    results: &mut Vec<Vec<u8>>,
) -> (stop: bool)
    requires
        partial == fnv1_of(stem@),
    ensures
        ({
            let m = range_matches(target, stem@, width as nat, lo as int, hi as int);
            &&& (continue_after_match ==> !stop && final(results).deep_view() == old(
                results,
            ).deep_view() + m)
            &&& (!continue_after_match && m.len() == 0 ==> !stop && final(results)@ == old(
                results,
            )@)
            &&& (!continue_after_match && m.len() > 0 ==> stop && final(results).deep_view()
                == old(results).deep_view().push(m[0]))
        }),
{
    let ghost m = range_matches(target, stem@, width as nat, lo as int, hi as int);
    if lo >= hi {
        proof {
            assert(results.deep_view() + m =~= results.deep_view());
        }
        return false;
    }
    let mut buf: Vec<u8> = Vec::new();
    let mut k: usize = 0;
    while k < width
        invariant
            k <= width,
            buf.len() == k,
        decreases width - k,
    {
        buf.push(0);
        k = k + 1;
    }
    let ghost mut found: Seq<Seq<u8>> = Seq::empty();
    proof {
        assert(m =~= found + m);
        assert(results.deep_view() + found =~= results.deep_view());
    }
    let mut n: u64 = lo;
    while n < hi
        invariant
            lo <= n <= hi,
            buf.len() == width,
            partial == fnv1_of(stem@),
            m == range_matches(target, stem@, width as nat, lo as int, hi as int),
            m == found + range_matches(target, stem@, width as nat, n as int, hi as int),
            continue_after_match ==> results.deep_view() == old(results).deep_view() + found,
            !continue_after_match ==> found == Seq::<Seq<u8>>::empty() && results@ == old(
                results,
            )@,
        decreases hi - n,
    {
        fill_digits(&mut buf, n, width);
        let h = fnv1_continue(partial, buf.as_slice());
        proof {
            lemma_continue_matches_scratch(stem@, buf@);
        }
        let ghost c = stem@ + rendered(n as nat, width as nat);
        let ghost tail = range_matches(target, stem@, width as nat, n as int + 1, hi as int);
        proof {
            assert(range_matches(target, stem@, width as nat, n as int, hi as int) == (
            if fnv1_of(c) == target {
                seq![c] + tail
            } else {
                tail
            }));
        }
        if h == target {
            let cand = make_candidate(stem, &buf);
            proof {
                assert(cand.deep_view() =~= c);
            }
            let ghost before = results.deep_view();
            results.push(cand);
            proof {
                assert(results.deep_view() =~= before.push(c));
            }
            if !continue_after_match {
                proof {
                    assert(m =~= seq![c] + tail);
                    assert(m[0] == c);
                }
                return true;
            }
            proof {
                let found0 = found;
                found = found.push(c);
                assert(found0 + (seq![c] + tail) =~= found + tail);
                assert((old(results).deep_view() + found0).push(c) =~= old(results).deep_view()
                    + found);
            }
        }
        n = n + 1;
    }
    proof {
        assert(m =~= found);
        if continue_after_match {
            assert(results.deep_view() == old(results).deep_view() + m);
        }
    }
    false
}

/// Runs the whole search. Each alphabet entry's stem is hashed once from
/// scratch; each numeric suffix then costs only one hash continuation over
/// its rendered digits. Returns every match in discovery order when
/// `continue_after_match` is set, and only the first match otherwise; an
/// empty result means the target is not in the space, not an error.
pub fn reverse_hash(target_hash: u32, config: &SearchConfig) -> (results: Vec<Vec<u8>>)
    requires
        config.wf(),
    ensures
        ({
            let m = all_matches(*config, target_hash);
            &&& (config.continue_after_match ==> results.deep_view() == m)
            &&& (!config.continue_after_match && m.len() == 0 ==> results@ == Seq::<
                Vec<u8>,
            >::empty())
            &&& (!config.continue_after_match && m.len() > 0 ==> results.deep_view() == seq![
                m[0],
            ])
        }),
{
    let ghost m = all_matches(*config, target_hash);
    let emax = config.effective_max();
    let mut results: Vec<Vec<u8>> = Vec::new();
    proof {
        assert(results.deep_view() =~= Seq::<Seq<u8>>::empty());
        assert(results.deep_view() + matches_from(*config, target_hash, 0) =~= m);
    }
    let mut i: usize = 0;
    while i < config.alphabet.len()
        invariant
            i <= config.alphabet.len(),
            config.wf(),
            emax == config.effective_max_spec(),
            m == all_matches(*config, target_hash),
            m == results.deep_view() + matches_from(*config, target_hash, i as int),
            !config.continue_after_match ==> results@ == Seq::<Vec<u8>>::empty(),
        decreases config.alphabet.len() - i,
    {
        let stem = stem_of(config, i);
        let partial = fnv1_32(stem.as_slice());
        let ghost rm = range_matches(
            target_hash,
            stem@,
            config.digits as nat,
            config.min_num as int,
            emax as int,
        );
        let ghost rest = matches_from(*config, target_hash, i as int + 1);
        proof {
            assert(matches_from(*config, target_hash, i as int) == rm + rest);
        }
        let ghost before = results.deep_view();
        let stop = search_char_range(
            target_hash,
            partial,
            &stem,
            config.digits,
            config.min_num,
            emax,
            config.continue_after_match,
            &mut results,
        );
        if stop {
            proof {
                assert(before =~= Seq::<Seq<u8>>::empty());
                assert(m =~= rm + rest);
                assert(m[0] == rm[0]);
                assert(results.deep_view() =~= seq![m[0]]);
            }
            return results;
        }
        proof {
            if config.continue_after_match {
                assert(before + (rm + rest) =~= (before + rm) + rest);
            } else {
                assert(rm.len() == 0);
                assert(before + (rm + rest) =~= before + rest);
            }
        }
        i = i + 1;
    }
    proof {
        assert(m =~= results.deep_view());
        if !config.continue_after_match {
            assert(results@ =~= Seq::<Vec<u8>>::empty());
            assert(m.len() == 0);
        }
    }
    results
}

} // verus!
