//! What splitting promises about combining: the right pieces restore the key,
//! and a missing required circle is reported as such.
use vstd::prelude::*;

use crate::crypto::{
    all_pieces_sized, circle_minted, combine_outcome, dedup, group_list, group_share_with_index,
    groups_present, individual_parts, lemma_counts_monotone, lemma_group_share_found, minted,
    pad, piece_for, required_before, required_total, slots_before, slots_total, split_of,
    unpad, unpad_ok,
};
use crate::shamir::{shares_combined, threshold_subset};
use crate::vault::Circle;

verus! {

/// `p` names slot `p.1` of circle `p.0`.
pub open spec fn valid_slot(cs: Seq<Circle>, p: (int, int)) -> bool {
    0 <= p.0 < cs.len() && 0 <= p.1 < cs[p.0].key_comments@.len()
}

/// `sel` names distinct slots of `cs`.
pub open spec fn valid_selection(cs: Seq<Circle>, sel: Seq<(int, int)>) -> bool {
    &&& sel.no_duplicates()
    &&& forall|k: int| 0 <= k < sel.len() ==> valid_slot(cs, #[trigger] sel[k])
}

/// The pieces minted for the slots `sel`, in that order.
pub open spec fn pieces_at(out: Seq<Circle>, sel: Seq<(int, int)>) -> Seq<Seq<u8>> {
    sel.map_values(|p: (int, int)| out[p.0].pieces()[p.1])
}

/// Some slot of `sel` belongs to circle `ci`.
pub open spec fn contributes(sel: Seq<(int, int)>, ci: int) -> bool {
    exists|k: int| 0 <= k < sel.len() && (#[trigger] sel[k]).0 == ci
}

/// Every required circle contributes a slot to `sel`.
pub open spec fn covers_required(cs: Seq<Circle>, sel: Seq<(int, int)>) -> bool {
    forall|ci: int| 0 <= ci < cs.len() && cs[ci].required ==> #[trigger] contributes(sel, ci)
}

/// The global index of slot `p`.
pub open spec fn slot_index(cs: Seq<Circle>, p: (int, int)) -> int {
    slots_before(cs, p.0) + p.1
}

proof fn lemma_slot_bounds(cs: Seq<Circle>, p: (int, int))
    requires
        valid_slot(cs, p),
    ensures
        0 <= slot_index(cs, p) < slots_total(cs),
        cs[p.0].required ==> required_before(cs, p.0) < required_total(cs),
        required_before(cs, p.0) <= required_total(cs),
{
    lemma_counts_monotone(cs, p.0, cs.len() as int);
}

proof fn lemma_slot_injective(cs: Seq<Circle>, p: (int, int), q: (int, int))
    requires
        valid_slot(cs, p),
        valid_slot(cs, q),
        p != q,
    ensures
        slot_index(cs, p) != slot_index(cs, q),
{
    if p.0 < q.0 {
        lemma_counts_monotone(cs, p.0, q.0);
    } else if q.0 < p.0 {
        lemma_counts_monotone(cs, q.0, p.0);
    }
}

/// Distinct required circles carry distinct group shares.
proof fn lemma_required_injective(cs: Seq<Circle>, a: int, b: int)
    requires
        0 <= a < cs.len(),
        0 <= b < cs.len(),
        cs[a].required,
        cs[b].required,
        a != b,
    ensures
        required_before(cs, a) != required_before(cs, b),
{
    if a < b {
        lemma_counts_monotone(cs, a, b);
    } else {
        lemma_counts_monotone(cs, b, a);
    }
}

/// Each group share below the count belongs to some required circle.
proof fn lemma_required_onto(cs: Seq<Circle>, n: int, g: int)
    requires
        0 <= n <= cs.len(),
        0 <= g < required_before(cs, n),
    ensures
        exists|ci: int| 0 <= ci < n && cs[ci].required && #[trigger] required_before(cs, ci) == g,
    decreases n,
{
    if g < required_before(cs, n - 1) {
        lemma_required_onto(cs, n - 1, g);
    } else {
        assert(cs[n - 1].required && required_before(cs, n - 1) == g);
    }
}

/// A sequence without duplicates is its own deduplication.
proof fn lemma_dedup_unique(s: Seq<Seq<u8>>)
    requires
        s.no_duplicates(),
    ensures
        dedup(s) == s,
    decreases s.len(),
{
    if s.len() > 0 {
        let init = s.drop_last();
        assert(init.no_duplicates());
        lemma_dedup_unique(init);
        assert(!init.contains(s.last()));
        assert(init.push(s.last()) =~= s);
    }
}

/// The piece minted for a valid slot, in terms of the shares.
proof fn lemma_piece_at(
    key: Seq<u8>,
    cs: Seq<Circle>,
    t: nat,
    out: Seq<Circle>,
    gs: Seq<Seq<u8>>,
    zs: Seq<Seq<u8>>,
    p: (int, int),
)
    requires
        minted(key, cs, t, out, gs, zs),
        valid_slot(cs, p),
    ensures
        out[p.0].pieces()[p.1] == piece_for(
            cs[p.0].required,
            zs[slot_index(cs, p)],
            gs[required_before(cs, p.0) as int],
        ),
        zs[slot_index(cs, p)].len() == 113,
        zs[slot_index(cs, p)][0] == slot_index(cs, p) + 1,
        gs[required_before(cs, p.0) as int].len() == 33,
        gs[required_before(cs, p.0) as int][0] == required_before(cs, p.0) + 1,
        cs[p.0].required ==> out[p.0].pieces()[p.1].len() == 146,
        !cs[p.0].required ==> out[p.0].pieces()[p.1].len() == 113,
        out[p.0].pieces()[p.1].subrange(0, 113) == zs[slot_index(cs, p)],
        cs[p.0].required ==> out[p.0].pieces()[p.1][113] == required_before(cs, p.0) + 1,
        cs[p.0].required ==> out[p.0].pieces()[p.1].subrange(113, 146) == gs[required_before(
            cs,
            p.0,
        ) as int],
{
    lemma_slot_bounds(cs, p);
    assert(circle_minted(
        cs[p.0],
        out[p.0],
        slots_before(cs, p.0),
        gs[required_before(cs, p.0) as int],
        zs,
    ));
    let z = zs[slot_index(cs, p)];
    let g = gs[required_before(cs, p.0) as int];
    assert((z + g).subrange(0, 113) =~= z);
    assert((z + g).subrange(113, 146) =~= g);
    assert(z.subrange(0, 113) =~= z);
}

/// The individual layer of a selection of at least `t` distinct slots
/// restores the padded secret of the group layer, which unpads to the last
/// group share.
proof fn lemma_individual_layer(
    key: Seq<u8>,
    cs: Seq<Circle>,
    t: nat,
    out: Seq<Circle>,
    gs: Seq<Seq<u8>>,
    zs: Seq<Seq<u8>>,
    sel: Seq<(int, int)>,
)
    requires
        minted(key, cs, t, out, gs, zs),
        valid_selection(cs, sel),
        sel.len() >= t,
    ensures
        all_pieces_sized(pieces_at(out, sel)),
        shares_combined(dedup(individual_parts(pieces_at(out, sel)))) == Some(
            pad(gs[required_total(cs) as int]),
        ),
        unpad_ok(pad(gs[required_total(cs) as int])),
        unpad(pad(gs[required_total(cs) as int])) == gs[required_total(cs) as int],
        gs[required_total(cs) as int].len() == 33,
        gs[required_total(cs) as int][0] == required_total(cs) + 1,
{
    let ps = pieces_at(out, sel);
    let ind = individual_parts(ps);
    assert forall|k: int| 0 <= k < ps.len() implies crate::crypto::piece_sized(#[trigger] ps[k]) by {
        lemma_piece_at(key, cs, t, out, gs, zs, sel[k]);
    }
    assert forall|k: int| 0 <= k < ind.len() implies #[trigger] ind[k] == zs[slot_index(cs, sel[k])]
        && zs.contains(ind[k]) by {
        lemma_piece_at(key, cs, t, out, gs, zs, sel[k]);
        lemma_slot_bounds(cs, sel[k]);
    }
    assert forall|k: int, l: int| 0 <= k < ind.len() && 0 <= l < ind.len() && k != l implies ind[k]
        != ind[l] by {
        lemma_piece_at(key, cs, t, out, gs, zs, sel[k]);
        lemma_piece_at(key, cs, t, out, gs, zs, sel[l]);
        lemma_slot_injective(cs, sel[k], sel[l]);
        lemma_slot_bounds(cs, sel[k]);
        lemma_slot_bounds(cs, sel[l]);
        assert(ind[k][0] != ind[l][0]);
    }
    assert(ind.no_duplicates());
    lemma_dedup_unique(ind);
    assert(threshold_subset(ind, zs, t));
    let r = required_total(cs) as int;
    let z = gs[r];
    assert(z.len() == 33 && z[0] == r + 1);
    assert(pad(z)[0] == 33u8);
    assert(unpad(pad(z)) =~= z);
}

/// Splitting and then combining gives the key back: the pieces of any
/// distinct slots, at least as many as the threshold, with at least one from
/// every required circle, combine to the key that was split.
pub proof fn lemma_split_then_combine(
    key: Seq<u8>,
    cs: Seq<Circle>,
    t: nat,
    out: Seq<Circle>,
    sel: Seq<(int, int)>,
)
    requires
        split_of(key, cs, t, out),
        valid_selection(cs, sel),
        sel.len() >= t,
        covers_required(cs, sel),
    ensures
        combine_outcome(pieces_at(out, sel)) == Ok::<Seq<u8>, Seq<char>>(key),
{
    let (gs, zs) = choose|gs: Seq<Seq<u8>>, zs: Seq<Seq<u8>>| #[trigger] minted(key, cs, t, out, gs, zs);
    lemma_individual_layer(key, cs, t, out, gs, zs, sel);
    let ps = pieces_at(out, sel);
    let r = required_total(cs);
    let z = gs[r as int];
    let m = (r + 1) as nat;
    assert forall|x: int| 1 <= x < m implies (#[trigger] group_share_with_index(ps, x as u8)) is Some
        && group_share_with_index(ps, x as u8)->Some_0 == gs[x - 1] by {
        lemma_required_onto(cs, cs.len() as int, x - 1);
        let ci = choose|ci: int|
            0 <= ci < cs.len() && cs[ci].required && #[trigger] required_before(cs, ci) == x - 1;
        assert(contributes(sel, ci));
        let k = choose|k: int| 0 <= k < sel.len() && (#[trigger] sel[k]).0 == ci;
        lemma_piece_at(key, cs, t, out, gs, zs, sel[k]);
        assert(ps[k].len() == 146 && ps[k][113] == x as u8);
        lemma_group_share_found(ps, x as u8);
        let g = group_share_with_index(ps, x as u8)->Some_0;
        let j = choose|j: int|
            0 <= j < ps.len() && (#[trigger] ps[j]).len() == 146 && ps[j][113] == x as u8 && g
                == ps[j].subrange(113, 146);
        lemma_piece_at(key, cs, t, out, gs, zs, sel[j]);
        lemma_slot_bounds(cs, sel[j]);
        assert(cs[sel[j].0].required);
    }
    assert(groups_present(ps, m));
    let gl = group_list(ps, m);
    assert(gl.push(z) =~= gs);
    assert forall|i: int, j: int| 0 <= i < gs.len() && 0 <= j < gs.len() && i != j implies gs[i]
        != gs[j] by {
        assert(gs[i][0] != gs[j][0]);
    }
    assert(threshold_subset(gs, gs, r + 1));
}

/// A selection that meets the threshold but leaves out a required circle is
/// refused as missing a circle.
pub proof fn lemma_missing_circle(
    key: Seq<u8>,
    cs: Seq<Circle>,
    t: nat,
    out: Seq<Circle>,
    sel: Seq<(int, int)>,
    missing: int,
)
    requires
        split_of(key, cs, t, out),
        valid_selection(cs, sel),
        sel.len() >= t,
        0 <= missing < cs.len(),
        cs[missing].required,
        !contributes(sel, missing),
    ensures
        combine_outcome(pieces_at(out, sel)) == Err::<Seq<u8>, Seq<char>>("circle_combine"@),
{
    let (gs, zs) = choose|gs: Seq<Seq<u8>>, zs: Seq<Seq<u8>>| #[trigger] minted(key, cs, t, out, gs, zs);
    lemma_individual_layer(key, cs, t, out, gs, zs, sel);
    let ps = pieces_at(out, sel);
    let r = required_total(cs);
    let m = (r + 1) as nat;
    let x = required_before(cs, missing) + 1;
    lemma_counts_monotone(cs, missing, cs.len() as int);
    lemma_group_share_found(ps, x as u8);
    if group_share_with_index(ps, x as u8) is Some {
        let g = group_share_with_index(ps, x as u8)->Some_0;
        let j = choose|j: int|
            0 <= j < ps.len() && (#[trigger] ps[j]).len() == 146 && ps[j][113] == x as u8 && g
                == ps[j].subrange(113, 146);
        lemma_piece_at(key, cs, t, out, gs, zs, sel[j]);
        lemma_slot_bounds(cs, sel[j]);
        assert(cs[sel[j].0].required);
        if sel[j].0 != missing {
            lemma_required_injective(cs, sel[j].0, missing);
        }
        assert(contributes(sel, missing));
    }
    assert(!groups_present(ps, m));
}

/// The pieces minted for two distinct slots differ, and no piece equals the
/// 32-byte key.
pub proof fn lemma_pieces_distinct(
    key: Seq<u8>,
    cs: Seq<Circle>,
    t: nat,
    out: Seq<Circle>,
    p: (int, int),
    q: (int, int),
)
    requires
        split_of(key, cs, t, out),
        key.len() == 32,
        valid_slot(cs, p),
        valid_slot(cs, q),
        p != q,
    ensures
        out[p.0].pieces()[p.1] != out[q.0].pieces()[q.1],
        out[p.0].pieces()[p.1] != key,
{
    let (gs, zs) = choose|gs: Seq<Seq<u8>>, zs: Seq<Seq<u8>>| #[trigger] minted(key, cs, t, out, gs, zs);
    lemma_piece_at(key, cs, t, out, gs, zs, p);
    lemma_piece_at(key, cs, t, out, gs, zs, q);
    lemma_slot_bounds(cs, p);
    lemma_slot_bounds(cs, q);
    lemma_slot_injective(cs, p, q);
    let a = out[p.0].pieces()[p.1];
    let b = out[q.0].pieces()[q.1];
    assert(a[0] == a.subrange(0, 113)[0]);
    assert(b[0] == b.subrange(0, 113)[0]);
    assert(a[0] != b[0]);
}

} // verus!
