//! The privacy notice placed in every vault archive, filled in with the
//! owner's details.
use vstd::prelude::*;

use vstd::string::StringSliceAdditionalSpecFns;
use vstd::utf8::encode_utf8;

use crate::vault::PersonalInfo;

verus! {

/// Name of the notice inside the archive.
pub const PRIVACY_FILE_NAME: &'static str = "PRIVACY.txt";

/// Name of the private manifest inside the archive.
pub const META_FILE_NAME: &'static str = "META";

/// The notice, with placeholders for the owner's details.
pub const PRIVACY_TEXT: &'static str = "This folder contains the contents of {name}'s digital vault. This is data that they imported and encrypted, and shared the keys with you.
Now that you have successfully decrypted their data, you must respect the instructions outlined in this folder.

If the data subject/controller (vault owner) is still alive, their GDPR rights still apply, and you must respect them.
if the data subject/controller (vault owner) is deceased, their GDPR rights no longer apply, but you should to respect the wishes of the family and/or next of kin.

You should act as a good steward of this data respect their wishes and both their privacy and that of their family and loved ones.

{name}
{emailAddress}
{legalName}
{phoneNumber}
{guidanceDocument}
{address}
";

/// The placeholders, in the order of the values that replace them.
pub open spec fn placeholders() -> Seq<Seq<u8>> {
    seq![
        "{name}".spec_bytes(),
        "{emailAddress}".spec_bytes(),
        "{legalName}".spec_bytes(),
        "{phoneNumber}".spec_bytes(),
        "{guidanceDocument}".spec_bytes(),
        "{address}".spec_bytes(),
    ]
}

/// The UTF-8 bytes of an optional detail; an absent one is empty.
pub open spec fn detail_bytes(s: Option<String>) -> Seq<u8> {
    match s {
        Some(v) => encode_utf8(v@),
        None => Seq::empty(),
    }
}

/// The values for the placeholders, from the owner's details.
pub open spec fn notice_values(info: PersonalInfo) -> Seq<Seq<u8>> {
    seq![
        encode_utf8(info.name@),
        encode_utf8(info.email_address@),
        detail_bytes(info.full_legal_name),
        detail_bytes(info.phone_number),
        detail_bytes(info.guidance_doc),
        detail_bytes(info.address),
    ]
}

/// The first of `tokens` that `t` starts with, or `tokens.len()` for none.
pub open spec fn first_token(t: Seq<u8>, tokens: Seq<Seq<u8>>, from: int) -> int
    decreases tokens.len() - from,
{
    if from < 0 || from >= tokens.len() {
        tokens.len() as int
    } else if tokens[from].len() > 0 && tokens[from].len() <= t.len() && t.subrange(
        0,
        tokens[from].len() as int,
    ) == tokens[from] {
        from
    } else {
        first_token(t, tokens, from + 1)
    }
}

/// `t` with every occurrence of a token, read from left to right, replaced by
/// the value of the same position.
pub open spec fn fill(t: Seq<u8>, tokens: Seq<Seq<u8>>, values: Seq<Seq<u8>>) -> Seq<u8>
    decreases t.len(),
{
    if t.len() == 0 {
        Seq::empty()
    } else {
        let k = first_token(t, tokens, 0);
        if 0 <= k < tokens.len() && 0 < tokens[k].len() <= t.len() {
            values[k] + fill(t.skip(tokens[k].len() as int), tokens, values)
        } else {
            seq![t[0]] + fill(t.skip(1), tokens, values)
        }
    }
}

/// Whether `t[at..]` starts with `tok`.
fn starts_with_at(t: &[u8], at: usize, tok: &[u8]) -> (r: bool)
    requires
        at <= t@.len(),
    ensures
        r == (tok@.len() <= t@.len() - at && t@.subrange(at as int, at + tok@.len()) == tok@),
{
    let n = t.len();
    if tok.len() > n - at {
        return false;
    }
    let mut i: usize = 0;
    while i < tok.len()
        invariant
            n == t@.len(),
            at <= t@.len(),
            tok@.len() <= t@.len() - at,
            i <= tok@.len(),
            t@.subrange(at as int, at + i) == tok@.subrange(0, i as int),
        decreases tok@.len() - i,
    {
        if t[at + i] != tok[i] {
            assert(t@.subrange(at as int, at + tok@.len())[i as int] != tok@[i as int]);
            return false;
        }
        i = i + 1;
        assert(t@.subrange(at as int, at + i) =~= tok@.subrange(0, i as int));
    }
    assert(tok@.subrange(0, i as int) =~= tok@);
    true
}

/// Replaces the placeholders of `template` by `values`, left to right.
pub fn fill_template(template: &[u8], tokens: &Vec<&[u8]>, values: &Vec<&[u8]>) -> (r: Vec<u8>)
    requires
        tokens@.len() == values@.len(),
    ensures
        r@ == fill(template@, tokens@.map_values(|t: &[u8]| t@), values@.map_values(|v: &[u8]| v@)),
{
    let ghost toks = tokens@.map_values(|t: &[u8]| t@);
    let ghost vals = values@.map_values(|v: &[u8]| v@);
    let mut out: Vec<u8> = Vec::new();
    let mut i: usize = 0;
    assert(template@.skip(0) =~= template@);
    while i < template.len()
        invariant
            i <= template@.len(),
            tokens@.len() == values@.len(),
            toks == tokens@.map_values(|t: &[u8]| t@),
            vals == values@.map_values(|v: &[u8]| v@),
            fill(template@, toks, vals) == out@ + fill(template@.skip(i as int), toks, vals),
        decreases template@.len() - i,
    {
        let ghost rest = template@.skip(i as int);
        let mut k: usize = 0;
        let mut found = false;
        while k < tokens.len() && !found
            invariant
                i < template@.len(),
                rest == template@.skip(i as int),
                k <= tokens@.len(),
                toks == tokens@.map_values(|t: &[u8]| t@),
                !found ==> first_token(rest, toks, 0) == first_token(rest, toks, k as int),
                found ==> k < tokens@.len() && first_token(rest, toks, 0) == k as int && 0
                    < toks[k as int].len() <= rest.len(),
            decreases tokens@.len() - k + if found { 0int } else { 1int },
        {
            let tok = tokens[k];
            if tok.len() > 0 && starts_with_at(template, i, tok) {
                assert(rest.subrange(0, tok@.len() as int) =~= template@.subrange(i as int, i + tok@.len()));
                found = true;
            } else {
                proof {
                    if tok@.len() > 0 && tok@.len() <= rest.len() {
                        assert(rest.subrange(0, tok@.len() as int) =~= template@.subrange(i as int, i + tok@.len()));
                    }
                }
                k = k + 1;
            }
        }
        if found {
            let tok_len = tokens[k].len();
            let value = values[k];
            let mut j: usize = 0;
            let ghost start = out@;
            while j < value.len()
                invariant
                    j <= value@.len(),
                    out@ == start + value@.subrange(0, j as int),
                decreases value@.len() - j,
            {
                out.push(value[j]);
                j = j + 1;
                assert(out@ =~= start + value@.subrange(0, j as int));
            }
            assert(value@.subrange(0, j as int) =~= value@);
            assert(rest.skip(tok_len as int) =~= template@.skip(i + tok_len));
            i = i + tok_len;
        } else {
            out.push(template[i]);
            assert(rest.skip(1) =~= template@.skip(i + 1));
            i = i + 1;
        }
    }
    out
}

/// The privacy notice for the owner `info`: each placeholder replaced by the
/// matching detail, absent details by nothing.
pub fn privacy_notice(info: &PersonalInfo) -> (r: Vec<u8>)
    ensures
        r@ == fill(PRIVACY_TEXT.spec_bytes(), placeholders(), notice_values(*info)),
{
    let tokens: Vec<&[u8]> = vec![
        "{name}".as_bytes(),
        "{emailAddress}".as_bytes(),
        "{legalName}".as_bytes(),
        "{phoneNumber}".as_bytes(),
        "{guidanceDocument}".as_bytes(),
        "{address}".as_bytes(),
    ];
    let values: Vec<&[u8]> = vec![
        info.name.as_str().as_bytes(),
        info.email_address.as_str().as_bytes(),
        detail(&info.full_legal_name),
        detail(&info.phone_number),
        detail(&info.guidance_doc),
        detail(&info.address),
    ];
    assert(tokens@.map_values(|t: &[u8]| t@) =~= placeholders());
    assert(values@.map_values(|v: &[u8]| v@) =~= notice_values(*info));
    fill_template(PRIVACY_TEXT.as_bytes(), &tokens, &values)
}

fn detail(s: &Option<String>) -> (r: &[u8])
    ensures
        r@ == detail_bytes(*s),
{
    match s {
        Some(v) => v.as_str().as_bytes(),
        None => &[],
    }
}

} // verus!
