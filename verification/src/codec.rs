//! The backup file format: a line-oriented, self-describing text
//! serialization of the whole group/account tree.
//!
//! Grammar (one record per line, each line ends in a newline):
//!
//! ```text
//! version:1
//! g:<name>            one line per group, in order
//! u:<url>             optional, directly after its group's `g:` line
//! a:<label>:<secret>  one line per account of the group, in order
//! ```
//!
//! Field bytes are the UTF-8 encoding of the field, with `\n`, `:` and `\`
//! escaped as `\n` -> `\` `n`, `:` -> `\` `c`, `\` -> `\` `\`, so that a raw
//! newline only ever ends a line and a raw colon only ever separates fields.
//! Identifiers and icon references are runtime-only and are not serialized.

use vstd::prelude::*;
use vstd::utf8::*;

use crate::model::{Account, AccountGroup, EntryData, GroupData, tree_data, account_data,
    group_data, backup_wf, group_data_wf, entry_data_wf};

verus! {

pub const NL: u8 = 10;
pub const COLON: u8 = 58;
pub const BSL: u8 = 92;
pub const CODE_N: u8 = 110;
pub const CODE_C: u8 = 99;
pub const TAG_G: u8 = 103;
pub const TAG_U: u8 = 117;
pub const TAG_A: u8 = 97;

/// The fixed first line of every backup: `version:1`.
pub open spec fn spec_header() -> Seq<u8> {
    seq![118u8, 101u8, 114u8, 115u8, 105u8, 111u8, 110u8, 58u8, 49u8, 10u8]
}

/// Escaping of one byte of a field.
pub open spec fn esc_byte(b: u8) -> Seq<u8> {
    if b == NL {
        seq![BSL, CODE_N]
    } else if b == COLON {
        seq![BSL, CODE_C]
    } else if b == BSL {
        seq![BSL, BSL]
    } else {
        seq![b]
    }
}

/// Escaping of a whole field.
pub open spec fn spec_esc(s: Seq<u8>) -> Seq<u8>
    decreases s.len(),
{
    if s.len() == 0 {
        Seq::empty()
    } else {
        esc_byte(s[0]) + spec_esc(s.skip(1))
    }
}

/// A field as it stands in the file: the escaped UTF-8 encoding.
pub open spec fn spec_field(cs: Seq<char>) -> Seq<u8> {
    spec_esc(encode_utf8(cs))
}

pub open spec fn spec_ser_entry(e: EntryData) -> Seq<u8> {
    seq![TAG_A, COLON] + spec_field(e.label) + seq![COLON] + spec_field(e.secret) + seq![NL]
}

pub open spec fn spec_ser_entries(es: Seq<EntryData>) -> Seq<u8>
    decreases es.len(),
{
    if es.len() == 0 {
        Seq::empty()
    } else {
        spec_ser_entry(es[0]) + spec_ser_entries(es.skip(1))
    }
}

pub open spec fn spec_ser_group(g: GroupData) -> Seq<u8> {
    seq![TAG_G, COLON] + spec_field(g.name) + seq![NL] + (match g.url {
        Option::Some(u) => seq![TAG_U, COLON] + spec_field(u) + seq![NL],
        Option::None => Seq::empty(),
    }) + spec_ser_entries(g.entries)
}

pub open spec fn spec_ser_groups(gs: Seq<GroupData>) -> Seq<u8>
    decreases gs.len(),
{
    if gs.len() == 0 {
        Seq::empty()
    } else {
        spec_ser_group(gs[0]) + spec_ser_groups(gs.skip(1))
    }
}

/// The whole backup file for a given tree.
pub open spec fn spec_ser_backup(gs: Seq<GroupData>) -> Seq<u8> {
    spec_header() + spec_ser_groups(gs)
}

/// Decoding of the byte after a `\` escape.
pub open spec fn unesc_code(b: u8) -> Option<u8> {
    if b == CODE_N {
        Option::Some(NL)
    } else if b == CODE_C {
        Option::Some(COLON)
    } else if b == BSL {
        Option::Some(BSL)
    } else {
        Option::None
    }
}

/// Reads one field up to (not including) its terminator, which is left at
/// the head of the returned rest. Fails on a truncated input or a bad escape.
pub open spec fn spec_parse_field(s: Seq<u8>) -> Option<(Seq<u8>, Seq<u8>)>
    decreases s.len(),
{
    if s.len() == 0 {
        Option::None
    } else if s[0] == NL || s[0] == COLON {
        Option::Some((Seq::empty(), s))
    } else if s[0] == BSL {
        if s.len() >= 2 {
            match unesc_code(s[1]) {
                Option::Some(d) => match spec_parse_field(s.skip(2)) {
                    Option::Some(p) => Option::Some((seq![d] + p.0, p.1)),
                    Option::None => Option::None,
                },
                Option::None => Option::None,
            }
        } else {
            Option::None
        }
    } else {
        match spec_parse_field(s.skip(1)) {
            Option::Some(p) => Option::Some((seq![s[0]] + p.0, p.1)),
            Option::None => Option::None,
        }
    }
}

/// A successful field parse leaves a non-empty rest that starts with the
/// terminator, and consumes at least the field's own bytes.
pub proof fn lemma_parse_field_props(s: Seq<u8>)
    ensures
        spec_parse_field(s) matches Option::Some(p) ==> {
            &&& 1 <= p.1.len() <= s.len()
            &&& (p.1[0] == NL || p.1[0] == COLON)
        },
    decreases s.len(),
{
    if s.len() == 0 {
    } else if s[0] == NL || s[0] == COLON {
    } else if s[0] == BSL {
        if s.len() >= 2 {
            lemma_parse_field_props(s.skip(2));
        }
    } else {
        lemma_parse_field_props(s.skip(1));
    }
}

/// Reads consecutive `a:` lines into entries; stops at the first line that
/// is not an account line, leaving it in the rest.
pub open spec fn spec_parse_entries(s: Seq<u8>) -> Option<(Seq<EntryData>, Seq<u8>)>
    decreases s.len(),
{
    if s.len() < 2 || s[0] != TAG_A || s[1] != COLON {
        Option::Some((Seq::empty(), s))
    } else {
        match spec_parse_field(s.skip(2)) {
            Option::None => Option::None,
            Option::Some(lp) => {
                if lp.1[0] == COLON {
                    match spec_parse_field(lp.1.skip(1)) {
                        Option::None => Option::None,
                        Option::Some(sp) => {
                            if sp.1[0] == NL && valid_utf8(lp.0) && valid_utf8(sp.0)
                                && decode_utf8(sp.0).len() > 0 {
                                proof {
                                    lemma_parse_field_props(s.skip(2));
                                    lemma_parse_field_props(lp.1.skip(1));
                                }
                                match spec_parse_entries(sp.1.skip(1)) {
                                    Option::None => Option::None,
                                    Option::Some(ep) => Option::Some(
                                        (seq![EntryData {
                                            label: decode_utf8(lp.0),
                                            secret: decode_utf8(sp.0),
                                        }] + ep.0, ep.1),
                                    ),
                                }
                            } else {
                                Option::None
                            }
                        },
                    }
                } else {
                    Option::None
                }
            },
        }
    }
}

/// Entry parsing never grows the input.
pub proof fn lemma_parse_entries_props(s: Seq<u8>)
    ensures
        spec_parse_entries(s) matches Option::Some(p) ==> p.1.len() <= s.len(),
    decreases s.len(),
{
    if s.len() < 2 || s[0] != TAG_A || s[1] != COLON {
    } else {
        match spec_parse_field(s.skip(2)) {
            Option::None => {},
            Option::Some(lp) => {
                lemma_parse_field_props(s.skip(2));
                if lp.1[0] == COLON {
                    match spec_parse_field(lp.1.skip(1)) {
                        Option::None => {},
                        Option::Some(sp) => {
                            lemma_parse_field_props(lp.1.skip(1));
                            if sp.1[0] == NL && valid_utf8(lp.0) && valid_utf8(sp.0)
                                && decode_utf8(sp.0).len() > 0 {
                                lemma_parse_entries_props(sp.1.skip(1));
                            }
                        },
                    }
                }
            },
        }
    }
}

/// Reads the whole group list; succeeds only if the input is consumed
/// entirely and every group name and account secret is non-empty.
pub open spec fn spec_parse_groups(s: Seq<u8>) -> Option<Seq<GroupData>>
    decreases s.len(),
{
    if s.len() == 0 {
        Option::Some(Seq::empty())
    } else if s.len() < 2 || s[0] != TAG_G || s[1] != COLON {
        Option::None
    } else {
        match spec_parse_field(s.skip(2)) {
            Option::None => Option::None,
            Option::Some(np) => {
                if np.1[0] == NL && valid_utf8(np.0) && decode_utf8(np.0).len() > 0 {
                    let s1 = np.1.skip(1);
                    if s1.len() >= 2 && s1[0] == TAG_U && s1[1] == COLON {
                        match spec_parse_field(s1.skip(2)) {
                            Option::None => Option::None,
                            Option::Some(up) => {
                                if up.1[0] == NL && valid_utf8(up.0) {
                                    match spec_parse_entries(up.1.skip(1)) {
                                        Option::None => Option::None,
                                        Option::Some(ep) => {
                                            proof {
                                                lemma_parse_field_props(s.skip(2));
                                                lemma_parse_field_props(s1.skip(2));
                                                lemma_parse_entries_props(up.1.skip(1));
                                            }
                                            match spec_parse_groups(ep.1) {
                                                Option::None => Option::None,
                                                Option::Some(gs) => Option::Some(
                                                    (seq![GroupData {
                                                        name: decode_utf8(np.0),
                                                        url: Option::Some(decode_utf8(up.0)),
                                                        entries: ep.0,
                                                    }] + gs),
                                                ),
                                            }
                                        },
                                    }
                                } else {
                                    Option::None
                                }
                            },
                        }
                    } else {
                        match spec_parse_entries(s1) {
                            Option::None => Option::None,
                            Option::Some(ep) => {
                                proof {
                                    lemma_parse_field_props(s.skip(2));
                                    lemma_parse_entries_props(s1);
                                }
                                match spec_parse_groups(ep.1) {
                                    Option::None => Option::None,
                                    Option::Some(gs) => Option::Some(
                                        (seq![GroupData {
                                            name: decode_utf8(np.0),
                                            url: Option::None,
                                            entries: ep.0,
                                        }] + gs),
                                    ),
                                }
                            },
                        }
                    }
                } else {
                    Option::None
                }
            },
        }
    }
}

/// The whole backup file: fixed header line, then the group list.
pub open spec fn spec_parse_backup(s: Seq<u8>) -> Option<Seq<GroupData>> {
    if s.len() >= 10 && s.take(10) == spec_header() {
        spec_parse_groups(s.skip(10))
    } else {
        Option::None
    }
}

pub proof fn lemma_esc_append(a: Seq<u8>, b: Seq<u8>)
    ensures
        spec_esc(a + b) == spec_esc(a) + spec_esc(b),
    decreases a.len(),
{
    if a.len() == 0 {
        assert(a + b =~= b);
        assert(spec_esc(a) + spec_esc(b) =~= spec_esc(b));
    } else {
        assert((a + b).skip(1) =~= a.skip(1) + b);
        lemma_esc_append(a.skip(1), b);
        assert(spec_esc(a + b) =~= spec_esc(a) + spec_esc(b));
    }
}

pub proof fn lemma_esc_single(b: u8)
    ensures
        spec_esc(seq![b]) == esc_byte(b),
{
    assert(seq![b].skip(1) =~= Seq::<u8>::empty());
    assert(esc_byte(b) + spec_esc(seq![b].skip(1)) =~= esc_byte(b));
}

/// Escaping one more byte extends the escaped prefix.
pub proof fn lemma_esc_take_step(s: Seq<u8>, i: int)
    requires
        0 <= i < s.len(),
    ensures
        spec_esc(s.take(i + 1)) == spec_esc(s.take(i)) + esc_byte(s[i]),
{
    assert(s.take(i + 1) =~= s.take(i) + seq![s[i]]);
    lemma_esc_append(s.take(i), seq![s[i]]);
    lemma_esc_single(s[i]);
}

pub proof fn lemma_ser_entries_push(es: Seq<EntryData>, e: EntryData)
    ensures
        spec_ser_entries(es.push(e)) == spec_ser_entries(es) + spec_ser_entry(e),
    decreases es.len(),
{
    if es.len() == 0 {
        assert(es.push(e)[0] == e);
        assert(es.push(e).len() == 1);
        assert(es.push(e).skip(1) =~= Seq::<EntryData>::empty());
        assert(spec_ser_entries(es.push(e).skip(1)) == Seq::<u8>::empty());
        assert(spec_ser_entries(es.push(e)) == spec_ser_entry(e) + Seq::<u8>::empty());
        assert(spec_ser_entries(es) == Seq::<u8>::empty());
        assert(spec_ser_entries(es.push(e)) =~= spec_ser_entries(es) + spec_ser_entry(e));
    } else {
        assert(es.push(e)[0] == es[0]);
        assert(es.push(e).skip(1) =~= es.skip(1).push(e));
        lemma_ser_entries_push(es.skip(1), e);
        assert(spec_ser_entries(es.push(e)) == spec_ser_entry(es[0]) + spec_ser_entries(
            es.skip(1).push(e),
        ));
        assert(spec_ser_entries(es) == spec_ser_entry(es[0]) + spec_ser_entries(es.skip(1)));
        assert(spec_ser_entries(es.push(e)) =~= spec_ser_entries(es) + spec_ser_entry(e));
    }
}

pub proof fn lemma_ser_groups_push(gs: Seq<GroupData>, g: GroupData)
    ensures
        spec_ser_groups(gs.push(g)) == spec_ser_groups(gs) + spec_ser_group(g),
    decreases gs.len(),
{
    if gs.len() == 0 {
        assert(gs.push(g)[0] == g);
        assert(gs.push(g).len() == 1);
        assert(gs.push(g).skip(1) =~= Seq::<GroupData>::empty());
        assert(spec_ser_groups(gs.push(g).skip(1)) == Seq::<u8>::empty());
        assert(spec_ser_groups(gs.push(g)) == spec_ser_group(g) + Seq::<u8>::empty());
        assert(spec_ser_groups(gs) == Seq::<u8>::empty());
        assert(spec_ser_groups(gs.push(g)) =~= spec_ser_groups(gs) + spec_ser_group(g));
    } else {
        assert(gs.push(g)[0] == gs[0]);
        assert(gs.push(g).skip(1) =~= gs.skip(1).push(g));
        lemma_ser_groups_push(gs.skip(1), g);
        assert(spec_ser_groups(gs.push(g)) == spec_ser_group(gs[0]) + spec_ser_groups(
            gs.skip(1).push(g),
        ));
        assert(spec_ser_groups(gs) == spec_ser_group(gs[0]) + spec_ser_groups(gs.skip(1)));
        assert(spec_ser_groups(gs.push(g)) =~= spec_ser_groups(gs) + spec_ser_group(g));
    }
}

/// Parsing inverts escaping: a field followed by its terminator reads back
/// exactly, whatever bytes it holds.
pub proof fn lemma_parse_field_esc(s: Seq<u8>, rest: Seq<u8>)
    requires
        rest.len() >= 1,
        rest[0] == NL || rest[0] == COLON,
    ensures
        spec_parse_field(spec_esc(s) + rest) == Option::Some((s, rest)),
    decreases s.len(),
{
    let total = spec_esc(s) + rest;
    if s.len() == 0 {
        assert(total =~= rest);
        assert(s =~= Seq::<u8>::empty());
    } else {
        let b = s[0];
        let t = s.skip(1);
        lemma_parse_field_esc(t, rest);
        if b == NL || b == COLON || b == BSL {
            let code: u8 = if b == NL { CODE_N } else if b == COLON { CODE_C } else { BSL };
            assert(esc_byte(b) =~= seq![BSL, code]);
            assert(total[0] == BSL);
            assert(total[1] == code);
            assert(unesc_code(code) == Option::Some(b));
            assert(total.skip(2) =~= spec_esc(t) + rest);
            assert(seq![b] + t =~= s);
        } else {
            assert(total[0] == b);
            assert(total.skip(1) =~= spec_esc(t) + rest);
            assert(seq![b] + t =~= s);
        }
    }
}

/// Parsing inverts serialization for entry lines, leaving the first
/// non-account line untouched.
#[verifier::rlimit(100)]
pub proof fn lemma_parse_entries_ser(es: Seq<EntryData>, rest: Seq<u8>)
    requires
        forall|k: int| 0 <= k < es.len() ==> entry_data_wf(#[trigger] es[k]),
        rest.len() == 0 || rest[0] == TAG_G,
    ensures
        spec_parse_entries(spec_ser_entries(es) + rest) == Option::Some((es, rest)),
    decreases es.len(),
{
    let total = spec_ser_entries(es) + rest;
    if es.len() == 0 {
        assert(total =~= rest);
        assert(es =~= Seq::<EntryData>::empty());
    } else {
        let e = es[0];
        let et = es.skip(1);
        let lab = encode_utf8(e.label);
        let sec = encode_utf8(e.secret);
        let tail = spec_ser_entries(et) + rest;
        let rest2 = seq![NL] + tail;
        let rest1 = seq![COLON] + (spec_esc(sec) + rest2);
        assert(total[0] == TAG_A);
        assert(total[1] == COLON);
        assert(total.len() >= 2);
        assert(total.skip(2) =~= spec_esc(lab) + rest1);
        lemma_parse_field_esc(lab, rest1);
        assert(rest1.skip(1) =~= spec_esc(sec) + rest2);
        lemma_parse_field_esc(sec, rest2);
        encode_utf8_valid_utf8(e.label);
        encode_utf8_valid_utf8(e.secret);
        encode_utf8_decode_utf8(e.label);
        encode_utf8_decode_utf8(e.secret);
        assert(entry_data_wf(es[0]));
        assert(rest2.skip(1) =~= spec_ser_entries(et) + rest);
        assert(forall|k: int| 0 <= k < et.len() ==> entry_data_wf(#[trigger] et[k])) by {
            assert(forall|k: int| 0 <= k < et.len() ==> et[k] == es[k + 1]);
        }
        lemma_parse_entries_ser(et, rest);
        let ed = EntryData { label: decode_utf8(lab), secret: decode_utf8(sec) };
        assert(ed =~= e);
        assert(seq![ed] + et =~= es);
    }
}

/// Parsing inverts serialization for the group list.
#[verifier::rlimit(100)]
pub proof fn lemma_parse_groups_ser(gs: Seq<GroupData>)
    requires
        backup_wf(gs),
    ensures
        spec_parse_groups(spec_ser_groups(gs)) == Option::Some(gs),
    decreases gs.len(),
{
    let total = spec_ser_groups(gs);
    if gs.len() == 0 {
        assert(total =~= Seq::<u8>::empty());
        assert(gs =~= Seq::<GroupData>::empty());
    } else {
        let g = gs[0];
        let gt = gs.skip(1);
        assert(group_data_wf(gs[0]));
        assert(backup_wf(gt)) by {
            assert(forall|k: int| 0 <= k < gt.len() ==> gt[k] == gs[k + 1]);
        }
        let tail = spec_ser_groups(gt);
        assert(tail.len() == 0 || tail[0] == TAG_G) by {
            if gt.len() > 0 {
                assert(tail =~= spec_ser_group(gt[0]) + spec_ser_groups(gt.skip(1)));
                assert(spec_ser_group(gt[0])[0] == TAG_G);
            }
        }
        lemma_parse_groups_ser(gt);
        let name = encode_utf8(g.name);
        encode_utf8_valid_utf8(g.name);
        encode_utf8_decode_utf8(g.name);
        let ent = spec_ser_entries(g.entries);
        assert(ent.len() == 0 || ent[0] == TAG_A) by {
            if g.entries.len() > 0 {
                assert(ent =~= spec_ser_entry(g.entries[0]) + spec_ser_entries(g.entries.skip(1)));
                assert(spec_ser_entry(g.entries[0])[0] == TAG_A);
            }
        }
        match g.url {
            Option::Some(u) => {
                let url = encode_utf8(u);
                encode_utf8_valid_utf8(u);
                encode_utf8_decode_utf8(u);
                let rest1 = seq![NL] + (seq![TAG_U, COLON] + spec_esc(url) + seq![NL] + ent + tail);
                assert(total[0] == TAG_G);
                assert(total[1] == COLON);
                assert(total.len() >= 2);
                assert(total.skip(2) =~= spec_esc(name) + rest1);
                lemma_parse_field_esc(name, rest1);
                let s1 = rest1.skip(1);
                assert(s1 =~= seq![TAG_U, COLON] + spec_esc(url) + seq![NL] + ent + tail);
                assert(s1[0] == TAG_U);
                assert(s1[1] == COLON);
                let rest2 = seq![NL] + (ent + tail);
                assert(s1.skip(2) =~= spec_esc(url) + rest2);
                lemma_parse_field_esc(url, rest2);
                assert(rest2.skip(1) =~= ent + tail);
                lemma_parse_entries_ser(g.entries, tail);
                let gd = GroupData {
                    name: decode_utf8(name),
                    url: Option::Some(decode_utf8(url)),
                    entries: g.entries,
                };
                assert(gd =~= g);
                assert(seq![gd] + gt =~= gs);
            },
            Option::None => {
                let rest1 = seq![NL] + (ent + tail);
                assert(total[0] == TAG_G);
                assert(total[1] == COLON);
                assert(total.len() >= 2);
                assert(total.skip(2) =~= spec_esc(name) + rest1);
                lemma_parse_field_esc(name, rest1);
                let s1 = rest1.skip(1);
                assert(s1 =~= ent + tail);
                assert(!(s1.len() >= 2 && s1[0] == TAG_U && s1[1] == COLON)) by {
                    if s1.len() >= 2 {
                        if g.entries.len() > 0 {
                            assert(s1[0] == TAG_A);
                        } else {
                            assert(s1 =~= tail);
                        }
                    }
                }
                lemma_parse_entries_ser(g.entries, tail);
                let gd = GroupData {
                    name: decode_utf8(name),
                    url: Option::None,
                    entries: g.entries,
                };
                assert(gd =~= g);
                assert(seq![gd] + gt =~= gs);
            },
        }
    }
}

/// Round-trip law: a well-formed tree, exported and imported, reads back as
/// exactly the same logical tree (names, urls, labels, secrets, ordering).
pub proof fn lemma_backup_round_trip(gs: Seq<GroupData>)
    requires
        backup_wf(gs),
    ensures
        spec_parse_backup(spec_ser_backup(gs)) == Option::Some(gs),
{
    let s = spec_ser_backup(gs);
    assert(s.take(10) =~= spec_header());
    assert(s.skip(10) =~= spec_ser_groups(gs));
    lemma_parse_groups_ser(gs);
}

/// Whatever parses was well-formed: every secret read back is non-empty.
pub proof fn lemma_parse_entries_wf(s: Seq<u8>)
    ensures
        spec_parse_entries(s) matches Option::Some(p) ==> forall|k: int|
            0 <= k < p.0.len() ==> entry_data_wf(#[trigger] p.0[k]),
    decreases s.len(),
{
    if s.len() < 2 || s[0] != TAG_A || s[1] != COLON {
    } else {
        match spec_parse_field(s.skip(2)) {
            Option::None => {},
            Option::Some(lp) => {
                lemma_parse_field_props(s.skip(2));
                if lp.1[0] == COLON {
                    match spec_parse_field(lp.1.skip(1)) {
                        Option::None => {},
                        Option::Some(sp) => {
                            lemma_parse_field_props(lp.1.skip(1));
                            if sp.1[0] == NL && valid_utf8(lp.0) && valid_utf8(sp.0)
                                && decode_utf8(sp.0).len() > 0 {
                                lemma_parse_entries_wf(sp.1.skip(1));
                            }
                        },
                    }
                }
            },
        }
    }
}

/// Whatever parses was well-formed: every name is non-empty and every secret
/// is non-empty.
pub proof fn lemma_parse_groups_wf(s: Seq<u8>)
    ensures
        spec_parse_groups(s) matches Option::Some(gs) ==> backup_wf(gs),
    decreases s.len(),
{
    if s.len() == 0 {
    } else if s.len() < 2 || s[0] != TAG_G || s[1] != COLON {
    } else {
        match spec_parse_field(s.skip(2)) {
            Option::None => {},
            Option::Some(np) => {
                if np.1[0] == NL && valid_utf8(np.0) && decode_utf8(np.0).len() > 0 {
                    lemma_parse_field_props(s.skip(2));
                    let s1 = np.1.skip(1);
                    if s1.len() >= 2 && s1[0] == TAG_U && s1[1] == COLON {
                        match spec_parse_field(s1.skip(2)) {
                            Option::None => {},
                            Option::Some(up) => {
                                if up.1[0] == NL && valid_utf8(up.0) {
                                    lemma_parse_field_props(s1.skip(2));
                                    match spec_parse_entries(up.1.skip(1)) {
                                        Option::None => {},
                                        Option::Some(ep) => {
                                            lemma_parse_entries_props(up.1.skip(1));
                                            lemma_parse_entries_wf(up.1.skip(1));
                                            lemma_parse_groups_wf(ep.1);
                                        },
                                    }
                                }
                            },
                        }
                    } else {
                        match spec_parse_entries(s1) {
                            Option::None => {},
                            Option::Some(ep) => {
                                lemma_parse_entries_props(s1);
                                lemma_parse_entries_wf(s1);
                                lemma_parse_groups_wf(ep.1);
                            },
                        }
                    }
                }
            },
        }
    }
}

/// Relies on String::from_utf8: it succeeds exactly on UTF-8 input, and the
/// returned string holds exactly the given bytes.
#[verifier::external_body]
fn string_from_utf8(v: Vec<u8>) -> (r: Option<String>)
    ensures
        r matches Option::Some(s) ==> encode_utf8(s@) == v@,
        valid_utf8(v@) ==> r is Some,
{
    String::from_utf8(v).ok()
}

/// Appends the escaped UTF-8 bytes of one field.
fn push_field(out: &mut Vec<u8>, s: &str)
    ensures
        final(out)@ == old(out)@ + spec_field(s@),
{
    let bytes: &[u8] = s.as_bytes();
    let n = bytes.len();
    let mut i: usize = 0;
    proof {
        assert(bytes@.take(0) =~= Seq::<u8>::empty());
        assert(out@ =~= out@ + spec_esc(bytes@.take(0)));
    }
    while i < n
        invariant
            n == bytes@.len(),
            bytes@ == encode_utf8(s@),
            i <= n,
            out@ == old(out)@ + spec_esc(bytes@.take(i as int)),
        decreases n - i,
    {
        let b = bytes[i];
        if b == NL {
            out.push(BSL);
            out.push(CODE_N);
        } else if b == COLON {
            out.push(BSL);
            out.push(CODE_C);
        } else if b == BSL {
            out.push(BSL);
            out.push(BSL);
        } else {
            out.push(b);
        }
        proof {
            lemma_esc_take_step(bytes@, i as int);
            assert(out@ =~= old(out)@ + spec_esc(bytes@.take(i as int + 1)));
        }
        i = i + 1;
    }
    proof {
        assert(bytes@.take(n as int) =~= bytes@);
    }
}

/// Serializes the whole tree into backup-file bytes. Identifiers and icon
/// references are left out.
#[verifier::rlimit(100)]
pub fn serialize_backup(groups: &Vec<AccountGroup>) -> (out: Vec<u8>)
    ensures
        out@ == spec_ser_backup(tree_data(groups@)),
{
    let mut out: Vec<u8> = Vec::new();
    out.push(118);
    out.push(101);
    out.push(114);
    out.push(115);
    out.push(105);
    out.push(111);
    out.push(110);
    out.push(58);
    out.push(49);
    out.push(10);
    let ghost td = tree_data(groups@);
    proof {
        assert(out@ =~= spec_header());
        assert(td.take(0) =~= Seq::<GroupData>::empty());
        assert(out@ =~= spec_header() + spec_ser_groups(td.take(0)));
    }
    let mut gi: usize = 0;
    while gi < groups.len()
        invariant
            td == tree_data(groups@),
            td.len() == groups@.len(),
            gi <= groups@.len(),
            out@ == spec_header() + spec_ser_groups(td.take(gi as int)),
        decreases groups@.len() - gi,
    {
        let ghost gspec = groups@[gi as int];
        let ghost gd = td[gi as int];
        proof {
            assert(gd == group_data(gspec));
        }
        let g = &groups[gi];
        out.push(TAG_G);
        out.push(COLON);
        push_field(&mut out, g.name.as_str());
        out.push(NL);
        match &g.url {
            Option::Some(u) => {
                out.push(TAG_U);
                out.push(COLON);
                push_field(&mut out, u.as_str());
                out.push(NL);
            },
            Option::None => {},
        }
        let ghost pre = spec_header() + spec_ser_groups(td.take(gi as int)) + seq![TAG_G, COLON]
            + spec_field(gd.name) + seq![NL] + (match gd.url {
            Option::Some(u) => seq![TAG_U, COLON] + spec_field(u) + seq![NL],
            Option::None => Seq::<u8>::empty(),
        });
        proof {
            assert(out@ =~= pre);
            assert(gd.entries.take(0) =~= Seq::<EntryData>::empty());
            assert(out@ =~= pre + spec_ser_entries(gd.entries.take(0)));
            assert(gd.entries.len() == gspec.entries@.len());
        }
        let n = g.entries.len();
        let mut ai: usize = 0;
        while ai < n
            invariant
                n == g.entries@.len(),
                g == groups@[gi as int],
                gi < groups@.len(),
                gd == group_data(groups@[gi as int]),
                gd.entries.len() == n,
                ai <= n,
                out@ == pre + spec_ser_entries(gd.entries.take(ai as int)),
            decreases n - ai,
        {
            let a = &g.entries[ai];
            out.push(TAG_A);
            out.push(COLON);
            push_field(&mut out, a.label.as_str());
            out.push(COLON);
            push_field(&mut out, a.secret.as_str());
            out.push(NL);
            proof {
                assert(gd.entries[ai as int] == account_data(g.entries@[ai as int]));
                assert(gd.entries.take(ai as int + 1) =~= gd.entries.take(ai as int).push(
                    gd.entries[ai as int],
                ));
                lemma_ser_entries_push(gd.entries.take(ai as int), gd.entries[ai as int]);
                assert(out@ =~= pre + spec_ser_entries(gd.entries.take(ai as int + 1)));
            }
            ai = ai + 1;
        }
        proof {
            assert(gd.entries.take(n as int) =~= gd.entries);
            assert(td.take(gi as int + 1) =~= td.take(gi as int).push(gd));
            lemma_ser_groups_push(td.take(gi as int), gd);
            assert(out@ =~= spec_header() + spec_ser_groups(td.take(gi as int + 1)));
        }
        gi = gi + 1;
    }
    proof {
        assert(td.take(groups@.len() as int) =~= td);
    }
    out
}

/// Reads one field starting at `i`; on success returns its unescaped bytes
/// and the index of the terminator.
fn parse_field(data: &[u8], i: usize) -> (r: Option<(Vec<u8>, usize)>)
    requires
        i <= data@.len(),
    ensures
        match r {
            Option::Some(p) => {
                &&& i <= p.1 <= data@.len()
                &&& spec_parse_field(data@.skip(i as int)) == Option::Some(
                    (p.0@, data@.skip(p.1 as int)),
                )
            },
            Option::None => spec_parse_field(data@.skip(i as int)) is None,
        },
    decreases data@.len() - i,
{
    let n = data.len();
    let ghost s = data@.skip(i as int);
    if i >= n {
        proof {
            assert(s =~= Seq::<u8>::empty());
        }
        return Option::None;
    }
    proof {
        assert(s[0] == data@[i as int]);
    }
    let b = data[i];
    if b == NL || b == COLON {
        let v: Vec<u8> = Vec::new();
        return Option::Some((v, i));
    }
    if b == BSL {
        if i + 1 >= n {
            proof {
                assert(s.len() < 2);
            }
            return Option::None;
        }
        let c = data[i + 1];
        proof {
            assert(s.len() >= 2);
            assert(s[1] == data@[i as int + 1]);
        }
        let d: u8;
        if c == CODE_N {
            d = NL;
        } else if c == CODE_C {
            d = COLON;
        } else if c == BSL {
            d = BSL;
        } else {
            return Option::None;
        }
        proof {
            assert(unesc_code(s[1]) == Option::Some(d));
            assert(s.skip(2) =~= data@.skip(i as int + 2));
        }
        match parse_field(data, i + 2) {
            Option::Some((f, j)) => {
                let mut f = f;
                let ghost f0 = f@;
                f.insert(0, d);
                proof {
                    assert(f@ =~= seq![d] + f0);
                }
                Option::Some((f, j))
            },
            Option::None => Option::None,
        }
    } else {
        proof {
            assert(s.skip(1) =~= data@.skip(i as int + 1));
        }
        match parse_field(data, i + 1) {
            Option::Some((f, j)) => {
                let mut f = f;
                let ghost f0 = f@;
                f.insert(0, b);
                proof {
                    assert(f@ =~= seq![b] + f0);
                }
                Option::Some((f, j))
            },
            Option::None => Option::None,
        }
    }
}

/// Reads consecutive account lines starting at `i`. Identifiers in the
/// returned accounts are left unassigned.
fn parse_entries(data: &[u8], i: usize) -> (r: Option<(Vec<Account>, usize)>)
    requires
        i <= data@.len(),
    ensures
        match r {
            Option::Some(p) => {
                &&& i <= p.1 <= data@.len()
                &&& spec_parse_entries(data@.skip(i as int)) == Option::Some(
                    (p.0@.map_values(|a: Account| account_data(a)), data@.skip(p.1 as int)),
                )
            },
            Option::None => spec_parse_entries(data@.skip(i as int)) is None,
        },
    decreases data@.len() - i,
{
    let n = data.len();
    let ghost s = data@.skip(i as int);
    proof {
        if i < n {
            assert(s[0] == data@[i as int]);
        }
        if i + 1 < n {
            assert(s[1] == data@[i as int + 1]);
        }
    }
    if n - i < 2 || data[i] != TAG_A || data[i + 1] != COLON {
        let v: Vec<Account> = Vec::new();
        proof {
            assert(s.len() < 2 || s[0] != TAG_A || s[1] != COLON);
            assert(v@.map_values(|a: Account| account_data(a)) =~= Seq::<EntryData>::empty());
        }
        return Option::Some((v, i));
    }
    proof {
        assert(s.len() >= 2 && s[0] == TAG_A && s[1] == COLON);
        assert(s.skip(2) =~= data@.skip(i as int + 2));
    }
    match parse_field(data, i + 2) {
        Option::None => Option::None,
        Option::Some((lb, j1)) => {
            proof {
                lemma_parse_field_props(s.skip(2));
                assert(data@.skip(j1 as int).len() >= 1);
                assert(data@.skip(j1 as int)[0] == data@[j1 as int]);
            }
            if data[j1] != COLON {
                return Option::None;
            }
            proof {
                assert(data@.skip(j1 as int).skip(1) =~= data@.skip(j1 as int + 1));
            }
            match parse_field(data, j1 + 1) {
                Option::None => Option::None,
                Option::Some((sb, j2)) => {
                    proof {
                        lemma_parse_field_props(data@.skip(j1 as int).skip(1));
                        assert(data@.skip(j2 as int).len() >= 1);
                        assert(data@.skip(j2 as int)[0] == data@[j2 as int]);
                    }
                    if data[j2] != NL {
                        return Option::None;
                    }
                    let label = match string_from_utf8(lb) {
                        Option::None => {
                            return Option::None;
                        },
                        Option::Some(x) => x,
                    };
                    let secret = match string_from_utf8(sb) {
                        Option::None => {
                            return Option::None;
                        },
                        Option::Some(x) => x,
                    };
                    proof {
                        encode_utf8_valid_utf8(label@);
                        encode_utf8_valid_utf8(secret@);
                        encode_utf8_decode_utf8(label@);
                        encode_utf8_decode_utf8(secret@);
                    }
                    if secret.as_str().is_empty() {
                        return Option::None;
                    }
                    proof {
                        assert(data@.skip(j2 as int).skip(1) =~= data@.skip(j2 as int + 1));
                    }
                    match parse_entries(data, j2 + 1) {
                        Option::None => Option::None,
                        Option::Some((es, j)) => {
                            let mut es = es;
                            let ghost es0 = es@;
                            let a = Account { id: 0, group_id: 0, label, secret };
                            es.insert(0, a);
                            proof {
                                assert(es@ =~= seq![a] + es0);
                                let f = |x: Account| account_data(x);
                                assert(es@.map_values(f) =~= seq![account_data(a)]
                                    + es0.map_values(f));
                            }
                            Option::Some((es, j))
                        },
                    }
                },
            }
        },
    }
}

/// Reads the whole group list starting at `i`; succeeds only if the input is
/// consumed entirely. Identifiers in the result are left unassigned.
#[verifier::rlimit(100)]
fn parse_groups(data: &[u8], i: usize) -> (r: Option<Vec<AccountGroup>>)
    requires
        i <= data@.len(),
    ensures
        match r {
            Option::Some(gs) => spec_parse_groups(data@.skip(i as int)) == Option::Some(
                tree_data(gs@),
            ),
            Option::None => spec_parse_groups(data@.skip(i as int)) is None,
        },
    decreases data@.len() - i,
{
    let n = data.len();
    let ghost s = data@.skip(i as int);
    if i >= n {
        let v: Vec<AccountGroup> = Vec::new();
        proof {
            assert(s =~= Seq::<u8>::empty());
            assert(tree_data(v@) =~= Seq::<GroupData>::empty());
        }
        return Option::Some(v);
    }
    proof {
        assert(s[0] == data@[i as int]);
        if i + 1 < n {
            assert(s[1] == data@[i as int + 1]);
        }
    }
    if n - i < 2 || data[i] != TAG_G || data[i + 1] != COLON {
        proof {
            assert(s.len() < 2 || s[0] != TAG_G || s[1] != COLON);
        }
        return Option::None;
    }
    proof {
        assert(s.skip(2) =~= data@.skip(i as int + 2));
    }
    match parse_field(data, i + 2) {
        Option::None => Option::None,
        Option::Some((nb, j1)) => {
            proof {
                lemma_parse_field_props(s.skip(2));
                assert(data@.skip(j1 as int).len() >= 1);
                assert(data@.skip(j1 as int)[0] == data@[j1 as int]);
            }
            if data[j1] != NL {
                return Option::None;
            }
            let name = match string_from_utf8(nb) {
                Option::None => {
                    return Option::None;
                },
                Option::Some(x) => x,
            };
            proof {
                encode_utf8_valid_utf8(name@);
                encode_utf8_decode_utf8(name@);
            }
            if name.as_str().is_empty() {
                return Option::None;
            }
            let p1 = j1 + 1;
            proof {
                assert(data@.skip(j1 as int).skip(1) =~= data@.skip(p1 as int));
            }
            let ghost s1 = data@.skip(p1 as int);
            proof {
                if p1 < n {
                    assert(s1[0] == data@[p1 as int]);
                }
                if p1 + 1 < n {
                    assert(s1[1] == data@[p1 as int + 1]);
                }
            }
            if n - p1 >= 2 && data[p1] == TAG_U && data[p1 + 1] == COLON {
                proof {
                    assert(s1.len() >= 2 && s1[0] == TAG_U && s1[1] == COLON);
                    assert(s1.skip(2) =~= data@.skip(p1 as int + 2));
                }
                match parse_field(data, p1 + 2) {
                    Option::None => Option::None,
                    Option::Some((ub, j2)) => {
                        proof {
                            lemma_parse_field_props(s1.skip(2));
                            assert(data@.skip(j2 as int).len() >= 1);
                            assert(data@.skip(j2 as int)[0] == data@[j2 as int]);
                        }
                        if data[j2] != NL {
                            return Option::None;
                        }
                        let url = match string_from_utf8(ub) {
                            Option::None => {
                                return Option::None;
                            },
                            Option::Some(x) => x,
                        };
                        proof {
                            encode_utf8_valid_utf8(url@);
                            encode_utf8_decode_utf8(url@);
                            assert(data@.skip(j2 as int).skip(1) =~= data@.skip(j2 as int + 1));
                        }
                        match parse_entries(data, j2 + 1) {
                            Option::None => Option::None,
                            Option::Some((es, j3)) => {
                                match parse_groups(data, j3) {
                                    Option::None => Option::None,
                                    Option::Some(gs) => {
                                        let mut gs = gs;
                                        let ghost gs0 = gs@;
                                        let g = AccountGroup {
                                            id: 0,
                                            name,
                                            icon: Option::None,
                                            url: Option::Some(url),
                                            entries: es,
                                        };
                                        gs.insert(0, g);
                                        proof {
                                            assert(gs@ =~= seq![g] + gs0);
                                            let f = |x: AccountGroup| group_data(x);
                                            assert(tree_data(gs@) =~= seq![group_data(g)]
                                                + tree_data(gs0));
                                        }
                                        Option::Some(gs)
                                    },
                                }
                            },
                        }
                    },
                }
            } else {
                proof {
                    assert(!(s1.len() >= 2 && s1[0] == TAG_U && s1[1] == COLON));
                }
                match parse_entries(data, p1) {
                    Option::None => Option::None,
                    Option::Some((es, j3)) => {
                        match parse_groups(data, j3) {
                            Option::None => Option::None,
                            Option::Some(gs) => {
                                let mut gs = gs;
                                let ghost gs0 = gs@;
                                let g = AccountGroup {
                                    id: 0,
                                    name,
                                    icon: Option::None,
                                    url: Option::None,
                                    entries: es,
                                };
                                gs.insert(0, g);
                                proof {
                                    assert(gs@ =~= seq![g] + gs0);
                                    let f = |x: AccountGroup| group_data(x);
                                    assert(tree_data(gs@) =~= seq![group_data(g)]
                                        + tree_data(gs0));
                                }
                                Option::Some(gs)
                            },
                        }
                    },
                }
            }
        },
    }
}

/// Parses a whole backup file. On success the returned tree holds the file's
/// groups and accounts in order, with identifiers left unassigned.
pub fn parse_backup(data: &[u8]) -> (r: Option<Vec<AccountGroup>>)
    ensures
        match r {
            Option::Some(gs) => spec_parse_backup(data@) == Option::Some(tree_data(gs@)),
            Option::None => spec_parse_backup(data@) is None,
        },
{
    if data.len() < 10 {
        return Option::None;
    }
    if data[0] != 118 || data[1] != 101 || data[2] != 114 || data[3] != 115 || data[4] != 105
        || data[5] != 111 || data[6] != 110 || data[7] != 58 || data[8] != 49 || data[9] != 10 {
        proof {
            assert(data@.take(10) != spec_header()) by {
                let t = data@.take(10);
                assert(forall|k: int| 0 <= k < 10 ==> t[k] == data@[k]);
            }
        }
        return Option::None;
    }
    proof {
        assert(data@.take(10) =~= spec_header());
    }
    parse_groups(data, 10)
}

} // verus!
