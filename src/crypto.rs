use vstd::prelude::*;

pub use crate::aead::{generate_key, generate_nonce};
use crate::aead::{open, opened, seal, sealable, sealed};
use crate::bytes::{join_bytes, lemma_bytes_deep_view, lemma_push_deep_view, sub_bytes};
use crate::error::{app_error, make_error, AppError, AppResult};
use crate::shamir::{
    combine_data, combine_key, indexed_shares, keyshares_combined, keyshares_recover,
    shares_combined, shares_recover, split_data, split_key,
};
use crate::vault::{Circle, CloudKeyData, Key, KeyPiece};

verus! {

broadcast use lemma_bytes_deep_view;

/// Length of the vault key.
pub const ENCRYPTION_KEY_LEN: usize = 32;

/// Length of a group-layer key share.
pub const KEYSHARE_LEN: usize = 33;

/// Length of the padded secret that the individual layer shares.
pub const FULL_SECRET_LEN: usize = 64;

/// Length of an individual-layer share.
pub const RE_SHARE_LEN: usize = 113;

/// The 64-byte buffer that carries `s`: its length, `s`, then zeros.
pub open spec fn pad(s: Seq<u8>) -> Seq<u8> {
    seq![s.len() as u8] + s + Seq::new((63 - s.len()) as nat, |i: int| 0u8)
}

/// Whether `b` is a padded secret of key or key-share length.
pub open spec fn unpad_ok(b: Seq<u8>) -> bool {
    b.len() == 64 && (b[0] == 32 || b[0] == 33)
}

/// The secret that a padded buffer carries.
pub open spec fn unpad(b: Seq<u8>) -> Seq<u8> {
    b.subrange(1, 1 + b[0] as int)
}

/// Pads a secret of at most 63 bytes to the 64 bytes that the individual
/// layer shares.
pub fn pad_key(key: Vec<u8>) -> (r: [u8; 64])
    requires
        key@.len() <= 63,
    ensures
        r@ == pad(key@),
{
    let mut result = [0u8; 64];
    result[0] = key.len() as u8;
    let mut counter: usize = 0;
    while counter < key.len()
        invariant
            key@.len() <= 63,
            counter <= key@.len(),
            result@[0] == key@.len() as u8,
            forall|j: int| 0 <= j < counter ==> result@[j + 1] == key@[j],
            forall|j: int| 1 + counter <= j < 64 ==> result@[j] == 0u8,
        decreases key@.len() - counter,
    {
        result[counter + 1] = key[counter];
        counter = counter + 1;
    }
    assert(result@ =~= pad(key@));
    result
}

/// Removes the padding of a 64-byte secret: the first byte gives the length of
/// the secret that follows, which must be that of a key or of a key share.
pub fn unpad_key(key: &Vec<u8>) -> (r: AppResult<Vec<u8>>)
    ensures
        match r {
            Ok(s) => unpad_ok(key@) && s@ == unpad(key@),
            Err(e) => !unpad_ok(key@) && e.error_type@ == "unknown"@,
        },
{
    if key.len() != FULL_SECRET_LEN {
        return Err(app_error("Bad secret: Incorrect length".to_owned()));
    }
    let length = key[0];
    let length_size = length as usize;
    if length_size != KEYSHARE_LEN && length_size != ENCRYPTION_KEY_LEN {
        return Err(app_error("Bad secret: Must be share or key length.".to_owned()));
    }
    Ok(sub_bytes(key.as_slice(), 1, 1 + length_size))
}


/// Number of required circles among the first `n` circles.
pub open spec fn required_before(cs: Seq<Circle>, n: int) -> nat
    decreases n,
{
    if n <= 0 {
        0
    } else {
        required_before(cs, n - 1) + if cs[n - 1].required { 1nat } else { 0nat }
    }
}

/// Number of recipient slots in the first `n` circles.
pub open spec fn slots_before(cs: Seq<Circle>, n: int) -> nat
    decreases n,
{
    if n <= 0 {
        0
    } else {
        slots_before(cs, n - 1) + cs[n - 1].key_comments@.len()
    }
}

/// Number of required circles.
pub open spec fn required_total(cs: Seq<Circle>) -> nat {
    required_before(cs, cs.len() as int)
}

/// Number of recipient slots over all circles.
pub open spec fn slots_total(cs: Seq<Circle>) -> nat {
    slots_before(cs, cs.len() as int)
}

/// Whether the splitter accepts the circles and the threshold `t`: the group
/// layer and the slots fit in a byte, and `1 <= t <= slots`.
pub open spec fn split_ok(cs: Seq<Circle>, t: nat) -> bool {
    &&& required_total(cs) + 1 <= 255
    &&& 1 <= slots_total(cs) <= 255
    &&& 1 <= t <= slots_total(cs)
}

/// The tag of the error the splitter returns when it refuses its input.
pub open spec fn split_error_tag(cs: Seq<Circle>) -> Seq<char> {
    if required_total(cs) + 1 > 255 || slots_total(cs) > 255 {
        "int_size"@
    } else {
        "SSS"@
    }
}

/// The piece of a recipient: their individual share, followed by the group
/// share of their circle when the circle is required.
pub open spec fn piece_for(required: bool, z: Seq<u8>, g: Seq<u8>) -> Seq<u8> {
    if required {
        z + g
    } else {
        z
    }
}

/// `o` is circle `c` with a piece minted for each of its slots, whose
/// individual shares start at `base` in `zs` and whose group share is `g`.
pub open spec fn circle_minted(c: Circle, o: Circle, base: nat, g: Seq<u8>, zs: Seq<Seq<u8>>) -> bool {
    &&& o.required == c.required
    &&& o.name@ == c.name@
    &&& o.key_comments@ == c.key_comments@
    &&& o.keys is Some
    &&& o.pieces().len() == c.key_comments@.len()
    &&& forall|si: int|
        0 <= si < o.pieces().len() ==> #[trigger] o.pieces()[si] == piece_for(
            c.required,
            zs[base + si],
            g,
        )
}

/// `out` is what splitting `key` over the circles `cs` with threshold `t`
/// mints, where `gs` are the group-layer shares (the last one is the secret
/// of the individual layer) and `zs` the individual-layer shares.
pub open spec fn minted(
    key: Seq<u8>,
    cs: Seq<Circle>,
    t: nat,
    out: Seq<Circle>,
    gs: Seq<Seq<u8>>,
    zs: Seq<Seq<u8>>,
) -> bool {
    let r = required_total(cs);
    &&& gs.len() == r + 1
    &&& indexed_shares(gs, 33)
    &&& keyshares_recover(gs, r + 1, key)
    &&& zs.len() == slots_total(cs)
    &&& indexed_shares(zs, 113)
    &&& shares_recover(zs, t, pad(gs[r as int]))
    &&& out.len() == cs.len()
    &&& forall|ci: int|
        0 <= ci < cs.len() ==> circle_minted(
            cs[ci],
            #[trigger] out[ci],
            slots_before(cs, ci),
            gs[required_before(cs, ci) as int],
            zs,
        )
}

/// Splitting `key` over `cs` with threshold `t` can yield `out`.
pub open spec fn split_of(key: Seq<u8>, cs: Seq<Circle>, t: nat, out: Seq<Circle>) -> bool {
    exists|gs: Seq<Seq<u8>>, zs: Seq<Seq<u8>>| #[trigger] minted(key, cs, t, out, gs, zs)
}

pub proof fn lemma_counts_monotone(cs: Seq<Circle>, a: int, b: int)
    requires
        0 <= a <= b,
    ensures
        slots_before(cs, a) <= slots_before(cs, b),
        required_before(cs, a) <= required_before(cs, b),
        a < b && cs[a].required ==> required_before(cs, a) + 1 <= required_before(cs, b),
        a < b ==> slots_before(cs, a) + cs[a].key_comments@.len() <= slots_before(cs, b),
    decreases b - a,
{
    if a < b {
        lemma_counts_monotone(cs, a, b - 1);
    }
}

/// A copy of a list of strings.
pub(crate) fn copy_strings(v: &Vec<String>) -> (r: Vec<String>)
    ensures
        r@ == v@,
{
    let mut r: Vec<String> = Vec::new();
    let mut i: usize = 0;
    while i < v.len()
        invariant
            i <= v@.len(),
            r@ == v@.subrange(0, i as int),
        decreases v@.len() - i,
    {
        r.push(v[i].clone());
        i = i + 1;
        assert(r@ =~= v@.subrange(0, i as int));
    }
    assert(v@.subrange(0, i as int) =~= v@);
    r
}

fn sss_error() -> (e: AppError)
    ensures
        e.error_type@ == "SSS"@,
{
    make_error("SSS", "Secret sharing refused its parameters.")
}

fn int_size_error() -> (e: AppError)
    ensures
        e.error_type@ == "int_size"@,
{
    make_error("int_size", "Too many circles or recipients: at most 255 are supported.")
}

/// Splits `key` into one key piece per recipient slot of `circles`, returning
/// the circles with their pieces. The key is split over the required circles
/// plus one share, all of which are needed; that last share is padded and
/// split again over all slots, `required_keys` of which are needed.
pub fn generate_circle_keys(key: &Key, circles: Vec<Circle>, required_keys: u8) -> (r: AppResult<
    Vec<Circle>,
>)
    ensures
        match r {
            Ok(out) => split_ok(circles@, required_keys as nat) && split_of(
                key@,
                circles@,
                required_keys as nat,
                out@,
            ),
            Err(e) => !split_ok(circles@, required_keys as nat) && e.error_type@ == split_error_tag(
                circles@,
            ),
        },
{
    let ghost cs = circles@;
    let mut required_groups: usize = 0;
    let mut total_keys: usize = 0;
    let mut i: usize = 0;
    while i < circles.len()
        invariant
            cs == circles@,
            i <= cs.len(),
            required_groups == required_before(cs, i as int),
            required_groups <= i,
            total_keys == if slots_before(cs, i as int) > 255 { 256 } else { slots_before(cs, i as int) },
        decreases cs.len() - i,
    {
        if circles[i].required {
            required_groups = required_groups + 1;
        }
        let n = circles[i].key_comments.len();
        if total_keys > 255 || n > 255 || total_keys + n > 255 {
            total_keys = 256;
        } else {
            total_keys = total_keys + n;
        }
        i = i + 1;
        proof { lemma_required_at_most(cs, i as int); }
    }
    proof { lemma_required_at_most(cs, cs.len() as int); }
    if required_groups > 254 || total_keys > 255 {
        return Err(int_size_error());
    }
    let key_splits = (required_groups + 1) as u8;
    let group_keys = match split_key(key.as_slice(), key_splits, key_splits) {
        Ok(g) => g,
        Err(_) => {
            return Err(sss_error());
        },
    };
    let ghost gs = group_keys.deep_view();
    assert(gs[required_groups as int] == group_keys@[required_groups as int]@);
    assert(gs[required_groups as int].len() == 33);
    let z = sub_bytes(group_keys[required_groups].as_slice(), 0, KEYSHARE_LEN);
    assert(z@ == gs[required_groups as int]) by {
        assert(z@ =~= group_keys@[required_groups as int]@);
    }
    let padded_z = pad_key(z);
    let individual_shares = match split_data(padded_z.as_slice(), total_keys as u8, required_keys) {
        Ok(s) => s,
        Err(_) => {
            return Err(sss_error());
        },
    };
    let ghost zs = individual_shares.deep_view();

    let mut new_circles: Vec<Circle> = Vec::new();
    let mut z_counter: usize = 0;
    let mut g_counter: usize = 0;
    let mut ci: usize = 0;
    while ci < circles.len()
        invariant
            cs == circles@,
            ci <= cs.len(),
            required_groups == required_total(cs),
            total_keys == slots_total(cs),
            total_keys <= 255,
            gs == group_keys.deep_view(),
            gs.len() == required_groups + 1,
            indexed_shares(gs, 33),
            zs == individual_shares.deep_view(),
            zs.len() == total_keys,
            indexed_shares(zs, 113),
            z_counter == slots_before(cs, ci as int),
            g_counter == required_before(cs, ci as int),
            new_circles@.len() == ci,
            forall|cj: int|
                0 <= cj < ci ==> circle_minted(
                    cs[cj],
                    #[trigger] new_circles@[cj],
                    slots_before(cs, cj),
                    gs[required_before(cs, cj) as int],
                    zs,
                ),
        decreases cs.len() - ci,
    {
        proof {
            lemma_counts_monotone(cs, ci as int, cs.len() as int);
        }
        let existing = &circles[ci];
        let group_key_count = existing.key_comments.len();
        let mut key_vector: Vec<KeyPiece> = Vec::new();
        let mut key_index: usize = 0;
        while key_index < group_key_count
            invariant
                cs == circles@,
                ci < cs.len(),
                *existing == cs[ci as int],
                group_key_count == cs[ci as int].key_comments@.len(),
                z_counter + group_key_count <= total_keys,
                g_counter == required_before(cs, ci as int),
                existing.required ==> g_counter < required_groups,
                g_counter <= required_groups,
                gs == group_keys.deep_view(),
                gs.len() == required_groups + 1,
                zs == individual_shares.deep_view(),
                zs.len() == total_keys,
                key_index <= group_key_count,
                key_vector@.len() == key_index,
                forall|si: int|
                    0 <= si < key_index ==> #[trigger] key_vector.deep_view()[si] == piece_for(
                        existing.required,
                        zs[z_counter + si],
                        gs[g_counter as int],
                    ),
            decreases group_key_count - key_index,
        {
            let z_share = individual_shares[z_counter + key_index].as_slice();
            let piece = if existing.required {
                join_bytes(z_share, group_keys[g_counter].as_slice())
            } else {
                sub_bytes(z_share, 0, z_share.len())
            };
            proof {
                assert(z_share@ == zs[z_counter + key_index]);
                assert(group_keys@[g_counter as int]@ == gs[g_counter as int]);
                assert(piece@ == piece_for(existing.required, zs[z_counter + key_index], gs[g_counter as int]));
            }
            let ghost before = key_vector.deep_view();
            let ghost old_kv = key_vector;
            let ghost piece_copy = piece;
            key_vector.push(piece);
            key_index = key_index + 1;
            proof {
                lemma_push_deep_view(before, key_vector, old_kv, piece_copy);
                assert forall|si: int| 0 <= si < key_index implies #[trigger] key_vector.deep_view()[si]
                    == piece_for(existing.required, zs[z_counter + si], gs[g_counter as int]) by {
                }
            }
        }
        let new_circle = Circle {
            required: existing.required,
            key_comments: copy_strings(&existing.key_comments),
            name: existing.name.clone(),
            keys: Some(key_vector),
        };
        proof {
            assert(new_circle.pieces() == key_vector.deep_view());
        }
        new_circles.push(new_circle);
        z_counter = z_counter + group_key_count;
        if existing.required {
            g_counter = g_counter + 1;
        }
        ci = ci + 1;
        proof {
            assert forall|cj: int| 0 <= cj < ci implies circle_minted(
                cs[cj],
                #[trigger] new_circles@[cj],
                slots_before(cs, cj),
                gs[required_before(cs, cj) as int],
                zs,
            ) by {
                if cj == ci - 1 {
                    assert(new_circles@[cj] == new_circle);
                }
            }
        }
    }
    proof {
        assert(minted(key@, cs, required_keys as nat, new_circles@, gs, zs));
    }
    Ok(new_circles)
}

/// At most `n` of the first `n` circles are required.
pub proof fn lemma_required_at_most(cs: Seq<Circle>, n: int)
    requires
        0 <= n,
    ensures
        required_before(cs, n) <= n,
    decreases n,
{
    if n > 0 {
        lemma_required_at_most(cs, n - 1);
    }
}

/// A piece is an individual share, optionally followed by a group share.
pub open spec fn piece_sized(p: Seq<u8>) -> bool {
    p.len() == 113 || p.len() == 146
}

pub open spec fn all_pieces_sized(ps: Seq<Seq<u8>>) -> bool {
    forall|i: int| 0 <= i < ps.len() ==> piece_sized(#[trigger] ps[i])
}

/// The byte strings of `s` in the order of their first occurrence, each once.
pub open spec fn dedup(s: Seq<Seq<u8>>) -> Seq<Seq<u8>>
    decreases s.len(),
{
    if s.len() == 0 {
        Seq::empty()
    } else {
        let d = dedup(s.drop_last());
        if d.contains(s.last()) {
            d
        } else {
            d.push(s.last())
        }
    }
}

/// The individual share of each piece: its first 113 bytes.
pub open spec fn individual_parts(ps: Seq<Seq<u8>>) -> Seq<Seq<u8>> {
    ps.map_values(|p: Seq<u8>| p.subrange(0, 113))
}

/// The group share of the first piece that carries one with x-coordinate `x`.
pub open spec fn group_share_with_index(ps: Seq<Seq<u8>>, x: u8) -> Option<Seq<u8>>
    decreases ps.len(),
{
    if ps.len() == 0 {
        None
    } else if ps[0].len() == 146 && ps[0][113] == x {
        Some(ps[0].subrange(113, 146))
    } else {
        group_share_with_index(ps.drop_first(), x)
    }
}

/// Some piece carries a group share for each x-coordinate `1 .. m - 1`.
pub open spec fn groups_present(ps: Seq<Seq<u8>>, m: nat) -> bool {
    forall|x: int| 1 <= x < m ==> (#[trigger] group_share_with_index(ps, x as u8)) is Some
}

/// The group shares for x-coordinates `1 .. m - 1`, in that order.
pub open spec fn group_list(ps: Seq<Seq<u8>>, m: nat) -> Seq<Seq<u8>> {
    Seq::new(
        if m == 0 { 0 } else { (m - 1) as nat },
        |i: int| group_share_with_index(ps, (i + 1) as u8)->Some_0,
    )
}

/// What combining the pieces `ps` gives: the key, or the tag of the error.
/// The individual shares are combined first, and the secret they restore is
/// unpadded; its first byte is the x-coordinate of the last group share, so
/// the group shares before it must all be present.
pub open spec fn combine_outcome(ps: Seq<Seq<u8>>) -> Result<Seq<u8>, Seq<char>> {
    if !all_pieces_sized(ps) {
        Err("combine"@)
    } else {
        match shares_combined(dedup(individual_parts(ps))) {
            None => Err("indiv_combine"@),
            Some(pz) => if !unpad_ok(pz) {
                Err("unknown"@)
            } else {
                let z = unpad(pz);
                if !groups_present(ps, z[0] as nat) || z.len() != 33 {
                    Err("circle_combine"@)
                } else {
                    Ok(keyshares_combined(group_list(ps, z[0] as nat).push(z)))
                }
            },
        }
    }
}

/// The group share that the first piece with x-coordinate `x` carries.
fn find_group_share(keys: &Vec<Vec<u8>>, x: u8) -> (r: Option<Vec<u8>>)
    ensures
        match r {
            Some(v) => group_share_with_index(keys.deep_view(), x) == Some(v@),
            None => group_share_with_index(keys.deep_view(), x) is None,
        },
{
    let ghost ps = keys.deep_view();
    let mut i: usize = 0;
    assert(ps.skip(0) =~= ps);
    while i < keys.len()
        invariant
            ps == keys.deep_view(),
            i <= ps.len(),
            group_share_with_index(ps, x) == group_share_with_index(ps.skip(i as int), x),
        decreases ps.len() - i,
    {
        assert(ps.skip(i as int)[0] == keys@[i as int]@);
        if keys[i].len() == RE_SHARE_LEN + KEYSHARE_LEN && keys[i][RE_SHARE_LEN] == x {
            return Some(sub_bytes(keys[i].as_slice(), RE_SHARE_LEN, RE_SHARE_LEN + KEYSHARE_LEN));
        }
        assert(ps.skip(i as int).drop_first() =~= ps.skip(i + 1));
        i = i + 1;
    }
    None
}

/// Combines key pieces back into the vault key. Pieces must be 113 or 146
/// bytes; equal individual shares count once; for each x-coordinate the first
/// group share that carries it is used.
pub fn combine_keys(keys: Vec<Vec<u8>>) -> (r: AppResult<Key>)
    ensures
        match r {
            Ok(k) => combine_outcome(keys.deep_view()) == Ok::<Seq<u8>, Seq<char>>(k@),
            Err(e) => combine_outcome(keys.deep_view()) == Err::<Seq<u8>, Seq<char>>(e.error_type@),
        },
{
    let ghost ps = keys.deep_view();
    let mut individual_keys: Vec<Vec<u8>> = Vec::new();
    let mut i: usize = 0;
    while i < keys.len()
        invariant
            ps == keys.deep_view(),
            i <= ps.len(),
            forall|j: int| 0 <= j < i ==> piece_sized(#[trigger] ps[j]),
            individual_keys.deep_view() == dedup(individual_parts(ps.take(i as int))),
        decreases ps.len() - i,
    {
        let n = keys[i].len();
        if n != RE_SHARE_LEN && n != RE_SHARE_LEN + KEYSHARE_LEN {
            assert(!piece_sized(ps[i as int]));
            return Err(make_error(
                "combine",
                "Incorrect key length: One or more of the keys are not the correct size.",
            ));
        }
        let individual_key = sub_bytes(keys[i].as_slice(), 0, RE_SHARE_LEN);
        let ghost parts = individual_parts(ps.take(i + 1));
        assert(parts.drop_last() =~= individual_parts(ps.take(i as int)));
        assert(parts.last() == individual_key@);
        if !crate::bytes::contains_bytes(&individual_keys, individual_key.as_slice()) {
            let ghost before = individual_keys.deep_view();
            let ghost old_v = individual_keys;
            let ghost x = individual_key;
            individual_keys.push(individual_key);
            proof {
                lemma_push_deep_view(before, individual_keys, old_v, x);
            }
        }
        i = i + 1;
    }
    assert(ps.take(ps.len() as int) =~= ps);
    assert(all_pieces_sized(ps));
    assert(individual_keys.deep_view() == dedup(individual_parts(ps)));
    let padded_z = match combine_data(&individual_keys) {
        Ok(Some(p)) => p,
        Ok(None) => {
            return Err(make_error(
                "indiv_combine",
                "You have not provided enough keys. Please provide more.",
            ));
        },
        Err(_) => {
            proof {
                let d = individual_keys.deep_view();
                assert forall|j: int| 0 <= j < d.len() implies (#[trigger] d[j]).len() == 113 by {
                    lemma_dedup_members(individual_parts(ps), j);
                }
            }
            return Err(sss_error());
        },
    };
    let z = unpad_key(&padded_z)?;
    let count = z[0];
    let mut circle_keys: Vec<Vec<u8>> = Vec::new();
    let mut x: u8 = 1;
    while x < count
        invariant
            ps == keys.deep_view(),
            1 <= x,
            x <= count || count == 0,
            count == 0 ==> x == 1,
            z@ == unpad(padded_z@),
            unpad_ok(padded_z@),
            shares_combined(dedup(individual_parts(ps))) == Some(padded_z@),
            all_pieces_sized(ps),
            z@.len() >= 1,
            count == z@[0],
            circle_keys@.len() == x - 1,
            forall|j: int| 1 <= j < x ==> (#[trigger] group_share_with_index(ps, j as u8)) is Some,
            forall|j: int|
                0 <= j < x - 1 ==> #[trigger] circle_keys.deep_view()[j] == group_share_with_index(
                    ps,
                    (j + 1) as u8,
                )->Some_0,
        decreases count - x,
    {
        match find_group_share(&keys, x) {
            Some(g) => {
                let ghost before = circle_keys.deep_view();
                let ghost old_v = circle_keys;
                let ghost gc = g;
                circle_keys.push(g);
                proof {
                    lemma_push_deep_view(before, circle_keys, old_v, gc);
                }
            },
            None => {
                assert(group_share_with_index(ps, ((x as int) as u8)) is None);
                assert(!groups_present(ps, z@[0] as nat));
                return Err(make_error(
                    "circle_combine",
                    "Insufficient circle data: Have you got all of the required participants?",
                ));
            },
        }
        x = x + 1;
    }
    if z.len() != KEYSHARE_LEN {
        return Err(make_error(
            "circle_combine",
            "Insufficient circle data: Have you got all of the required participants?",
        ));
    }
    let ghost zv = z@;
    let ghost m = count as nat;
    assert(circle_keys.deep_view() =~= group_list(ps, m));
    let ghost before = circle_keys.deep_view();
    let ghost old_v = circle_keys;
    circle_keys.push(z);
    proof {
        lemma_push_deep_view(before, circle_keys, old_v, z);
    }
    let secret = match combine_key(&circle_keys) {
        Ok(s) => s,
        Err(_) => {
            proof {
                let d = circle_keys.deep_view();
                assert forall|j: int| 0 <= j < d.len() implies (#[trigger] d[j]).len() == 33 by {
                    if j < d.len() - 1 {
                        lemma_group_share_found(ps, (j + 1) as u8);
                    }
                }
            }
            return Err(make_error(
                "circle_combine",
                "Insufficient circle data: Have you got all of the required participants?",
            ));
        },
    };
    let mut result: Key = [0u8; 32];
    let mut k: usize = 0;
    while k < ENCRYPTION_KEY_LEN
        invariant
            secret@.len() == 32,
            k <= 32,
            forall|j: int| 0 <= j < k ==> result@[j] == secret@[j],
        decreases 32 - k,
    {
        result[k] = secret[k];
        k = k + 1;
    }
    assert(result@ =~= secret@);
    Ok(result)
}

/// Each member of `dedup(s)` is a member of `s`, and `dedup(s)` has no
/// duplicates.
pub proof fn lemma_dedup_members(s: Seq<Seq<u8>>, j: int)
    requires
        0 <= j < dedup(s).len(),
    ensures
        s.contains(dedup(s)[j]),
    decreases s.len(),
{
    let d = dedup(s.drop_last());
    if j < d.len() {
        lemma_dedup_members(s.drop_last(), j);
        let k = choose|k: int| 0 <= k < s.drop_last().len() && s.drop_last()[k] == d[j];
        assert(s[k] == d[j]);
    } else {
        assert(s[s.len() - 1] == s.last());
    }
}

/// The group share found for `x` is carried by some piece with that
/// x-coordinate, and none is found only when no piece carries one.
pub proof fn lemma_group_share_found(ps: Seq<Seq<u8>>, x: u8)
    ensures
        match group_share_with_index(ps, x) {
            Some(g) => exists|k: int|
                0 <= k < ps.len() && (#[trigger] ps[k]).len() == 146 && ps[k][113] == x && g
                    == ps[k].subrange(113, 146),
            None => forall|k: int|
                0 <= k < ps.len() ==> !((#[trigger] ps[k]).len() == 146 && ps[k][113] == x),
        },
        group_share_with_index(ps, x) matches Some(g) ==> g.len() == 33,
    decreases ps.len(),
{
    if ps.len() > 0 && !(ps[0].len() == 146 && ps[0][113] == x) {
        lemma_group_share_found(ps.drop_first(), x);
        match group_share_with_index(ps, x) {
            Some(g) => {
                let k = choose|k: int|
                    0 <= k < ps.drop_first().len() && (#[trigger] ps.drop_first()[k]).len() == 146
                        && ps.drop_first()[k][113] == x && g == ps.drop_first()[k].subrange(113, 146);
                assert(ps[k + 1] == ps.drop_first()[k]);
            },
            None => {
                assert forall|k: int| 0 <= k < ps.len() implies !((#[trigger] ps[k]).len() == 146
                    && ps[k][113] == x) by {
                    if k > 0 {
                        assert(ps[k] == ps.drop_first()[k - 1]);
                    }
                }
            },
        }
    } else if ps.len() > 0 {
        assert(ps[0].len() == 146 && ps[0][113] == x);
    }
}

/// Length of the read-only cloud handle.
pub const READ_ONLY_CLOUD_KEY_LEN: usize = 8;

/// Length of the owner's cloud handle.
pub const OWNER_CLOUD_KEY_LEN: usize = 16;

/// An encrypted message with the nonce and associated data it was sealed with.
#[derive(Debug)]
pub struct EncryptedFile {
    pub ciphertext: Vec<u8>,
    pub nonce: Vec<u8>,
    pub aad: Vec<u8>,
}

/// Encrypts `file_contents` under `key` and `nonce`, authenticating
/// `meta_data` with it.
pub fn encrypt_file(key: &Key, file_contents: &Vec<u8>, meta_data: &[u8], nonce: [u8; 12]) -> (r:
    AppResult<EncryptedFile>)
    ensures
        r is Ok <==> sealable(file_contents@),
        r matches Ok(f) ==> {
            &&& f.ciphertext@ == sealed(key@, nonce@, meta_data@, file_contents@)
            &&& f.ciphertext@.len() == file_contents@.len() + 16
            &&& f.nonce@ == nonce@
            &&& f.aad@ == meta_data@
        },
        r matches Err(e) ==> e.error_type@ == "crypto"@,
{
    match seal(key, &nonce, meta_data, file_contents.as_slice()) {
        Ok(ciphertext) => Ok(EncryptedFile {
            ciphertext,
            nonce: sub_bytes(nonce.as_slice(), 0, 12),
            aad: sub_bytes(meta_data, 0, meta_data.len()),
        }),
        Err(_) => Err(make_error("crypto", "Encryption failed: the message is too long.")),
    }
}

/// Decrypts a file with `key`; the associated data must be what it was
/// encrypted with.
pub fn decrypt_file(key: &[u8], file: EncryptedFile) -> (r: Result<Vec<u8>, chacha20poly1305::Error>)
    requires
        key@.len() == 32,
        file.nonce@.len() == 12,
    ensures
        match r {
            Ok(p) => opened(key@, file.nonce@, file.aad@, file.ciphertext@) == Some(p@),
            Err(_) => opened(key@, file.nonce@, file.aad@, file.ciphertext@) is None,
        },
        forall|m: Seq<u8>|
            sealable(m) && #[trigger] sealed(key@, file.nonce@, file.aad@, m) == file.ciphertext@
                ==> (r matches Ok(p) && p@ == m),
{
    open(key, file.nonce.as_slice(), file.aad.as_slice(), file.ciphertext.as_slice())
}

/// The cloud handles for a vault `key`: the share token is the key's first
/// eight bytes, the owner token the first sixteen bytes of `tokens`.
pub fn cloud_creds_from(key: &Key, tokens: &[u8; 32]) -> (r: CloudKeyData)
    ensures
        r.share_token@ == key@.subrange(0, 8),
        r.owner_token@ == tokens@.subrange(0, 16),
{
    CloudKeyData {
        owner_token: sub_bytes(tokens.as_slice(), 0, OWNER_CLOUD_KEY_LEN),
        share_token: sub_bytes(key.as_slice(), 0, READ_ONLY_CLOUD_KEY_LEN),
    }
}

/// Mints a fresh vault key and its cloud handles.
pub fn generate_cloud_creds() -> (r: (Key, CloudKeyData))
    ensures
        r.1.share_token@ == r.0@.subrange(0, 8),
        r.1.owner_token@.len() == 16,
{
    let key = generate_key();
    let tokens = generate_key();
    let creds = cloud_creds_from(&key, &tokens);
    (key, creds)
}

} // verus!
