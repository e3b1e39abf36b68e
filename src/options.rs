use vstd::prelude::*;
use vstd::string::*;
use vstd::utf8::*;
use crate::codec::{
    any_end, any_end_at, lemma_read_varuint_bounds, raw_bytes, read_raw, read_raw_at, read_varuint,
    read_varuint_at, varuint_bytes, write_all, write_raw, write_varuint, TAG_BIGINT, TAG_FALSE,
    TAG_MAP, TAG_STRING, TAG_TRUE,
};
use crate::text::{copy_range, range_eq, string_from_utf8};

verus! {

/// How lengths and offsets of text are counted.
#[derive(Debug, Clone, Copy, PartialEq, Eq, Structural)]
pub enum OffsetKind {
    /// UTF-8 bytes.
    Bytes,
    /// UTF-16 code units.
    Utf16,
}

/// The mathematical content of [`Options`].
pub ghost struct OptionsView {
    pub client_id: u64,
    pub guid: Seq<char>,
    pub collection_id: Option<Seq<char>>,
    pub offset_kind: OffsetKind,
    pub skip_gc: bool,
    pub auto_load: bool,
    pub should_load: bool,
}

/// Configuration of one document replica.
#[derive(Debug, PartialEq, Eq)]
pub struct Options {
    /// Identifier of this replica. Replicas that exchange updates must not share it.
    pub client_id: u64,
    /// Globally unique identifier of the document.
    pub guid: String,
    /// Collection the document belongs to, if the provider has such a concept.
    pub collection_id: Option<String>,
    /// How text offsets are counted.
    pub offset_kind: OffsetKind,
    /// Keep deleted history instead of compacting it.
    pub skip_gc: bool,
    /// As a nested document, request loading as soon as it is referenced.
    pub auto_load: bool,
    /// Whether the provider should load the document now.
    pub should_load: bool,
}

impl View for Options {
    type V = OptionsView;

    open spec fn view(&self) -> OptionsView {
        OptionsView {
            client_id: self.client_id,
            guid: self.guid@,
            collection_id: match self.collection_id {
                Some(c) => Some(c@),
                None => None,
            },
            offset_kind: self.offset_kind,
            skip_gc: self.skip_gc,
            auto_load: self.auto_load,
            should_load: self.should_load,
        }
    }
}

/// Options with the given identifiers and every other setting at its default.
pub open spec fn options_with(client_id: u64, guid: Seq<char>) -> OptionsView {
    OptionsView {
        client_id,
        guid,
        collection_id: None,
        offset_kind: OffsetKind::Bytes,
        skip_gc: false,
        auto_load: false,
        should_load: true,
    }
}

pub fn clone_string_option(s: &Option<String>) -> (r: Option<String>)
    ensures
        r == *s,
{
    match s {
        Some(c) => Some(c.clone()),
        None => None,
    }
}

impl Clone for Options {
    fn clone(&self) -> (r: Self)
        ensures
            r == *self,
    {
        Options {
            client_id: self.client_id,
            guid: self.guid.clone(),
            collection_id: clone_string_option(&self.collection_id),
            offset_kind: self.offset_kind,
            skip_gc: self.skip_gc,
            auto_load: self.auto_load,
            should_load: self.should_load,
        }
    }
}

impl Options {
    /// Options with a given guid and replica identifier.
    pub fn with_guid_and_client_id(guid: String, client_id: u64) -> (r: Options)
        ensures
            r@ == options_with(client_id, guid@),
    {
        Options {
            client_id,
            guid,
            collection_id: None,
            offset_kind: OffsetKind::Bytes,
            skip_gc: false,
            auto_load: false,
            should_load: true,
        }
    }
}

} // verus!

verus! {

/// Whether `s` is the text of a random version 4 identifier.
pub open spec fn is_random_guid(s: Seq<char>) -> bool {
    exists|b: Seq<u8>| b.len() == 16 && s == crate::uuid::uuid_v4_text(b)
}

/// A fresh random version 4 identifier.
pub fn uuid_v4() -> (r: String)
    ensures
        is_random_guid(r@),
{
    let mut rng = crate::random::new_rng();
    let b = crate::random::random_bytes(&mut rng);
    crate::uuid::uuid_v4_from_bytes(b)
}

impl Options {
    /// Options with a given replica identifier, a fresh random guid and default settings.
    pub fn with_client_id(client_id: u64) -> (r: Options)
        ensures
            r@ == options_with(client_id, r@.guid),
            is_random_guid(r@.guid),
    {
        Options::with_guid_and_client_id(uuid_v4(), client_id)
    }
}

impl Default for Options {
    /// Options with a random replica identifier below `u32::MAX`, a random guid and
    /// default settings.
    fn default() -> (r: Options)
        ensures
            r@ == options_with(r@.client_id, r@.guid),
            r.client_id < u32::MAX,
            is_random_guid(r@.guid),
    {
        let mut rng = crate::random::new_rng();
        let client_id = crate::random::random_client_id(&mut rng);
        let b = crate::random::random_bytes(&mut rng);
        let guid = crate::uuid::uuid_v4_from_bytes(b);
        Options::with_guid_and_client_id(guid, client_id as u64)
    }
}

} // verus!

verus! {

/// Key under which the inverse of `skip_gc` is stored ("gc").
pub open spec fn key_gc() -> Seq<u8> {
    seq![103u8, 99]
}

/// Key of the collection identifier ("collectionId").
pub open spec fn key_collection_id() -> Seq<u8> {
    seq![99u8, 111, 108, 108, 101, 99, 116, 105, 111, 110, 73, 100]
}

/// Key of the offset counting mode ("encoding").
pub open spec fn key_encoding() -> Seq<u8> {
    seq![101u8, 110, 99, 111, 100, 105, 110, 103]
}

/// Key of `auto_load` ("autoLoad").
pub open spec fn key_auto_load() -> Seq<u8> {
    seq![97u8, 117, 116, 111, 76, 111, 97, 100]
}

/// Key of `should_load` ("shouldLoad").
pub open spec fn key_should_load() -> Seq<u8> {
    seq![115u8, 104, 111, 117, 108, 100, 76, 111, 97, 100]
}

/// A boolean as a self-describing value.
pub open spec fn bool_value(v: bool) -> Seq<u8> {
    if v {
        seq![TAG_TRUE]
    } else {
        seq![TAG_FALSE]
    }
}

/// The big-endian eight bytes of the offset mode: one for bytes, zero for UTF-16.
pub open spec fn offset_code(k: OffsetKind) -> Seq<u8> {
    match k {
        OffsetKind::Bytes => seq![0u8, 0, 0, 0, 0, 0, 0, 1],
        OffsetKind::Utf16 => seq![0u8, 0, 0, 0, 0, 0, 0, 0],
    }
}

/// The entry of the `gc` flag (the inverse of `skip_gc`).
pub open spec fn gc_entry(skip_gc: bool) -> Seq<u8> {
    raw_bytes(key_gc()) + bool_value(!skip_gc)
}

/// The entry of the collection identifier; absent when there is none.
pub open spec fn collection_entry(cid: Option<Seq<char>>) -> Seq<u8> {
    match cid {
        Some(c) => raw_bytes(key_collection_id()) + seq![TAG_STRING] + raw_bytes(encode_utf8(c)),
        None => seq![],
    }
}

/// The entry of the offset counting mode.
pub open spec fn offset_entry(k: OffsetKind) -> Seq<u8> {
    raw_bytes(key_encoding()) + seq![TAG_BIGINT] + offset_code(k)
}

/// The entries of the two load flags.
pub open spec fn flag_entries(auto_load: bool, should_load: bool) -> Seq<u8> {
    raw_bytes(key_auto_load()) + bool_value(auto_load) + raw_bytes(key_should_load()) + bool_value(
        should_load,
    )
}

/// The key/value entries of the encoded options, in the order they are written.
pub open spec fn options_entries(o: OptionsView) -> Seq<u8> {
    gc_entry(o.skip_gc) + collection_entry(o.collection_id) + offset_entry(o.offset_kind)
        + flag_entries(o.auto_load, o.should_load)
}

/// The wire form of options: the guid as a string, then a map of the other settings.
/// The replica identifier is not part of it.
pub open spec fn encode_options(o: OptionsView) -> Seq<u8> {
    raw_bytes(encode_utf8(o.guid)) + seq![TAG_MAP] + varuint_bytes(
        if o.collection_id is Some {
            5nat
        } else {
            4nat
        },
    ) + options_entries(o)
}

/// Overlays one entry, whose key is `key` and whose value starts at `vpos`.
/// A recognised key with a value of another kind puts the setting back to its default.
pub open spec fn overlay_entry(b: Seq<u8>, key: Seq<u8>, vpos: int, acc: OptionsView) -> Option<
    OptionsView,
> {
    let t = b[vpos];
    if key == key_gc() {
        Some(OptionsView { skip_gc: t == TAG_FALSE, ..acc })
    } else if key == key_auto_load() {
        Some(OptionsView { auto_load: t == TAG_TRUE, ..acc })
    } else if key == key_collection_id() {
        if t == TAG_STRING {
            match read_raw(b, vpos + 1) {
                Some((s, _)) => if valid_utf8(s) {
                    Some(OptionsView { collection_id: Some(decode_utf8(s)), ..acc })
                } else {
                    None
                },
                None => None,
            }
        } else {
            Some(OptionsView { collection_id: None, ..acc })
        }
    } else if key == key_encoding() {
        if t == TAG_BIGINT && b.subrange(vpos + 1, vpos + 9) == offset_code(OffsetKind::Bytes) {
            Some(OptionsView { offset_kind: OffsetKind::Bytes, ..acc })
        } else {
            Some(OptionsView { offset_kind: OffsetKind::Utf16, ..acc })
        }
    } else {
        Some(acc)
    }
}

/// Overlays `n` key/value entries that start at `pos`; the settings and the position after them.
#[verifier::opaque]
pub open spec fn overlay_entries(b: Seq<u8>, pos: int, n: nat, acc: OptionsView) -> Option<
    (OptionsView, int),
>
    decreases b.len() - pos, n,
{
    if pos < 0 || pos > b.len() {
        None
    } else if n == 0 {
        Some((acc, pos))
    } else {
        match read_raw(b, pos) {
            Some((key, vpos)) => match any_end(b, vpos) {
                Some(e) => if pos < e <= b.len() {
                    match overlay_entry(b, key, vpos, acc) {
                        Some(acc2) => overlay_entries(b, e, (n - 1) as nat, acc2),
                        None => None,
                    }
                } else {
                    None
                },
                None => None,
            },
            None => None,
        }
    }
}

/// The options that `b` decodes to, with `client_id` as the replica identifier
/// (which the wire form does not carry). Decoding starts from the defaults with
/// `should_load` false, reads the guid, then overlays the recognised keys of the map
/// that follows; other keys, and a value that is not a map, are stepped over.
pub open spec fn decode_options(b: Seq<u8>, client_id: u64) -> Option<OptionsView> {
    match read_raw(b, 0) {
        Some((g, p)) => if !valid_utf8(g) {
            None
        } else {
            let base = OptionsView {
                client_id,
                guid: decode_utf8(g),
                collection_id: None,
                offset_kind: OffsetKind::Bytes,
                skip_gc: false,
                auto_load: false,
                should_load: false,
            };
            if p < b.len() && b[p] == TAG_MAP {
                match read_varuint(b, p + 1) {
                    Some((n, q)) => match overlay_entries(b, q, n, base) {
                        Some((o, _)) => Some(o),
                        None => None,
                    },
                    None => None,
                }
            } else {
                match any_end(b, p) {
                    Some(_) => Some(base),
                    None => None,
                }
            }
        },
        None => None,
    }
}

/// Input that is not a well-formed encoding of options.
#[derive(Debug, Clone, Copy, PartialEq, Eq, Structural)]
pub struct DecodeError;

fn write_bool(out: &mut Vec<u8>, v: bool)
    ensures
        final(out)@ == old(out)@ + bool_value(v),
{
    if v {
        out.push(TAG_TRUE);
    } else {
        out.push(TAG_FALSE);
    }
    assert(out@ =~= old(out)@ + bool_value(v));
}

fn write_collection_entry(out: &mut Vec<u8>, cid: &Option<String>)
    ensures
        final(out)@ == old(out)@ + collection_entry(
            match cid {
                Some(c) => Some(c@),
                None => None,
            },
        ),
{
    match cid {
        Some(c) => {
            let k: [u8; 12] = [99, 111, 108, 108, 101, 99, 116, 105, 111, 110, 73, 100];
            assert(k@ =~= key_collection_id());
            write_raw(out, k.as_slice());
            out.push(TAG_STRING);
            write_raw(out, c.as_str().as_bytes());
            assert(out@ =~= old(out)@ + (raw_bytes(key_collection_id()) + seq![TAG_STRING]
                + raw_bytes(encode_utf8(c@))));
        },
        None => {
            assert(out@ =~= old(out)@ + Seq::<u8>::empty());
        },
    }
}

fn write_offset_entry(out: &mut Vec<u8>, k: OffsetKind)
    ensures
        final(out)@ == old(out)@ + offset_entry(k),
{
    let k_enc: [u8; 8] = [101, 110, 99, 111, 100, 105, 110, 103];
    assert(k_enc@ =~= key_encoding());
    write_raw(out, k_enc.as_slice());
    out.push(TAG_BIGINT);
    let code: [u8; 8] = match k {
        OffsetKind::Bytes => [0, 0, 0, 0, 0, 0, 0, 1],
        OffsetKind::Utf16 => [0, 0, 0, 0, 0, 0, 0, 0],
    };
    assert(code@ =~= offset_code(k));
    write_all(out, code.as_slice());
    assert(out@ =~= old(out)@ + (raw_bytes(key_encoding()) + seq![TAG_BIGINT] + offset_code(k)));
}

fn write_flag_entries(out: &mut Vec<u8>, auto_load: bool, should_load: bool)
    ensures
        final(out)@ == old(out)@ + flag_entries(auto_load, should_load),
{
    let k_al: [u8; 8] = [97, 117, 116, 111, 76, 111, 97, 100];
    assert(k_al@ =~= key_auto_load());
    write_raw(out, k_al.as_slice());
    write_bool(out, auto_load);
    let k_sl: [u8; 10] = [115, 104, 111, 117, 108, 100, 76, 111, 97, 100];
    assert(k_sl@ =~= key_should_load());
    write_raw(out, k_sl.as_slice());
    write_bool(out, should_load);
    assert(out@ =~= old(out)@ + (raw_bytes(key_auto_load()) + bool_value(auto_load) + raw_bytes(
        key_should_load(),
    ) + bool_value(should_load)));
}

proof fn lemma_concat5(a: Seq<u8>, b: Seq<u8>, c: Seq<u8>, d: Seq<u8>, e: Seq<u8>)
    ensures
        a + b + c + d + e == a + (b + c + d + e),
{
    assert(a + b + c + d + e =~= a + (b + c + d + e));
}

fn write_gc_entry(out: &mut Vec<u8>, skip_gc: bool)
    ensures
        final(out)@ == old(out)@ + gc_entry(skip_gc),
{
    let k_gc: [u8; 2] = [103, 99];
    assert(k_gc@ =~= key_gc());
    write_raw(out, k_gc.as_slice());
    write_bool(out, !skip_gc);
    assert(out@ =~= old(out)@ + gc_entry(skip_gc));
}

fn write_entries(out: &mut Vec<u8>, o: &Options)
    ensures
        final(out)@ == old(out)@ + options_entries(o@),
{
    write_gc_entry(out, o.skip_gc);
    write_collection_entry(out, &o.collection_id);
    write_offset_entry(out, o.offset_kind);
    write_flag_entries(out, o.auto_load, o.should_load);
    proof {
        lemma_concat5(
            old(out)@,
            gc_entry(o.skip_gc),
            collection_entry(o@.collection_id),
            offset_entry(o.offset_kind),
            flag_entries(o.auto_load, o.should_load),
        );
    }
}

/// The settings other than the guid as a self-describing map value.
pub open spec fn options_map(o: OptionsView) -> Seq<u8> {
    seq![TAG_MAP] + varuint_bytes(
        if o.collection_id is Some {
            5nat
        } else {
            4nat
        },
    ) + options_entries(o)
}

impl Options {
    /// The settings other than the guid, as the self-describing map of the wire form.
    pub fn as_any(&self) -> (r: Vec<u8>)
        ensures
            r@ == options_map(self@),
    {
        let mut out: Vec<u8> = Vec::new();
        out.push(TAG_MAP);
        let n: u64 = if self.collection_id.is_some() {
            5
        } else {
            4
        };
        write_varuint(&mut out, n);
        write_entries(&mut out, self);
        assert(out@ =~= options_map(self@));
        out
    }

    /// The wire form of these options.
    pub fn encode(&self) -> (r: Vec<u8>)
        ensures
            r@ == encode_options(self@),
    {
        let mut out: Vec<u8> = Vec::new();
        write_raw(&mut out, self.guid.as_str().as_bytes());
        let map = self.as_any();
        write_all(&mut out, map.as_slice());
        assert(out@ =~= encode_options(self@));
        out
    }
}

fn overlay_entry_at(b: &[u8], kstart: usize, kend: usize, vpos: usize, acc: Options) -> (r:
    Option<Options>)
    requires
        kstart <= kend <= b@.len(),
        any_end(b@, vpos as int) is Some,
    ensures
        r is None <==> overlay_entry(b@, b@.subrange(kstart as int, kend as int), vpos as int, acc@)
            is None,
        r matches Some(o) ==> overlay_entry(
            b@,
            b@.subrange(kstart as int, kend as int),
            vpos as int,
            acc@,
        ) == Some(o@) && o.client_id == acc.client_id,
{
    let ghost key = b@.subrange(kstart as int, kend as int);
    let t = b[vpos];
    let k_gc: [u8; 2] = [103, 99];
    let k_al: [u8; 8] = [97, 117, 116, 111, 76, 111, 97, 100];
    let k_cid: [u8; 12] = [99, 111, 108, 108, 101, 99, 116, 105, 111, 110, 73, 100];
    let k_enc: [u8; 8] = [101, 110, 99, 111, 100, 105, 110, 103];
    assert(k_gc@ =~= key_gc());
    assert(k_al@ =~= key_auto_load());
    assert(k_cid@ =~= key_collection_id());
    assert(k_enc@ =~= key_encoding());
    let mut o = acc;
    if range_eq(b, kstart, kend, k_gc.as_slice()) {
        o.skip_gc = t == TAG_FALSE;
        Some(o)
    } else if range_eq(b, kstart, kend, k_al.as_slice()) {
        o.auto_load = t == TAG_TRUE;
        Some(o)
    } else if range_eq(b, kstart, kend, k_cid.as_slice()) {
        if t == TAG_STRING {
            match read_raw_at(b, vpos + 1) {
                Some((s, e)) => match string_from_utf8(copy_range(b, s, e)) {
                    Some(c) => {
                        o.collection_id = Some(c);
                        Some(o)
                    },
                    None => None,
                },
                None => None,
            }
        } else {
            o.collection_id = None;
            Some(o)
        }
    } else if range_eq(b, kstart, kend, k_enc.as_slice()) {
        let one: [u8; 8] = [0, 0, 0, 0, 0, 0, 0, 1];
        assert(one@ =~= offset_code(OffsetKind::Bytes));
        if t == TAG_BIGINT && range_eq(b, vpos + 1, vpos + 9, one.as_slice()) {
            o.offset_kind = OffsetKind::Bytes;
        } else {
            o.offset_kind = OffsetKind::Utf16;
        }
        Some(o)
    } else {
        Some(o)
    }
}

impl Options {
    /// Decodes options from their wire form, with `client_id` as the replica identifier.
    pub fn decode_with_client_id(b: &[u8], client_id: u64) -> (r: Result<Options, DecodeError>)
        ensures
            r is Err <==> decode_options(b@, client_id) is None,
            r matches Ok(o) ==> decode_options(b@, client_id) == Some(o@) && o.client_id
                == client_id,
    {
        reveal(overlay_entries);
        let (gs, ge) = match read_raw_at(b, 0) {
            Some(x) => x,
            None => {
                return Err(DecodeError);
            },
        };
        let guid = match string_from_utf8(copy_range(b, gs, ge)) {
            Some(g) => g,
            None => {
                return Err(DecodeError);
            },
        };
        let base = Options {
            client_id,
            guid,
            collection_id: None,
            offset_kind: OffsetKind::Bytes,
            skip_gc: false,
            auto_load: false,
            should_load: false,
        };
        let p = ge;
        if p < b.len() && b[p] == TAG_MAP {
            proof {
                lemma_read_varuint_bounds(b@, p + 1);
            }
            let (n, q) = match read_varuint_at(b, p + 1) {
                Some(x) => x,
                None => {
                    return Err(DecodeError);
                },
            };
            let ghost target = overlay_entries(b@, q as int, n as nat, base@);
            let mut acc = base;
            let mut pos = q;
            let mut k = n;
            while k > 0
                invariant
                    pos <= b@.len(),
                    overlay_entries(b@, pos as int, k as nat, acc@) == target,
                    acc.client_id == client_id,
                    decode_options(b@, client_id) == match target {
                        Some((o, _)) => Some(o),
                        None => None,
                    },
                decreases k,
            {
                proof {
                    reveal(overlay_entries);
                    lemma_read_varuint_bounds(b@, pos as int);
                }
                let (ks, vpos) = match read_raw_at(b, pos) {
                    Some(x) => x,
                    None => {
                        return Err(DecodeError);
                    },
                };
                let e = match any_end_at(b, vpos) {
                    Some(e) => e,
                    None => {
                        return Err(DecodeError);
                    },
                };
                if e <= pos {
                    return Err(DecodeError);
                }
                acc = match overlay_entry_at(b, ks, vpos, vpos, acc) {
                    Some(a) => a,
                    None => {
                        return Err(DecodeError);
                    },
                };
                pos = e;
                k = k - 1;
            }
            Ok(acc)
        } else {
            match any_end_at(b, p) {
                Some(_) => Ok(base),
                None => Err(DecodeError),
            }
        }
    }

    /// Decodes options from their wire form. The replica identifier, which the wire form
    /// does not carry, is drawn at random below `u32::MAX`.
    pub fn decode(b: &[u8]) -> (r: Result<Options, DecodeError>)
        ensures
            r is Err <==> decode_options(b@, 0) is None,
            r matches Ok(o) ==> decode_options(b@, o.client_id) == Some(o@) && o.client_id
                < u32::MAX,
    {
        let defaults = Options::default();
        proof {
            lemma_decode_client_id(b@, 0, defaults.client_id);
        }
        Options::decode_with_client_id(b, defaults.client_id)
    }
}

proof fn lemma_overlay_client_id(b: Seq<u8>, pos: int, n: nat, acc: OptionsView, c: u64)
    ensures
        overlay_entries(b, pos, n, acc) is Some <==> overlay_entries(
            b,
            pos,
            n,
            OptionsView { client_id: c, ..acc },
        ) is Some,
        overlay_entries(b, pos, n, acc) matches Some((o, e)) ==> overlay_entries(
            b,
            pos,
            n,
            OptionsView { client_id: c, ..acc },
        ) == Some((OptionsView { client_id: c, ..o }, e)),
    decreases b.len() - pos, n,
{
    reveal(overlay_entries);
    if 0 <= pos <= b.len() && n > 0 {
        if let Some((key, vpos)) = read_raw(b, pos) {
            if let Some(e) = any_end(b, vpos) {
                if pos < e <= b.len() {
                    if let Some(acc2) = overlay_entry(b, key, vpos, acc) {
                        lemma_overlay_client_id(b, e, (n - 1) as nat, acc2, c);
                        assert(overlay_entry(b, key, vpos, OptionsView { client_id: c, ..acc })
                            == Some(OptionsView { client_id: c, ..acc2 }));
                    }
                }
            }
        }
    }
}

/// Whether decoding succeeds does not depend on the replica identifier.
proof fn lemma_decode_client_id(b: Seq<u8>, c1: u64, c2: u64)
    ensures
        decode_options(b, c1) is Some <==> decode_options(b, c2) is Some,
{
    if let Some((g, p)) = read_raw(b, 0) {
        if valid_utf8(g) && p < b.len() && b[p] == TAG_MAP {
            if let Some((n, q)) = read_varuint(b, p + 1) {
                let base = OptionsView {
                    client_id: c1,
                    guid: decode_utf8(g),
                    collection_id: None,
                    offset_kind: OffsetKind::Bytes,
                    skip_gc: false,
                    auto_load: false,
                    should_load: false,
                };
                lemma_overlay_client_id(b, q, n, base, c2);
            }
        }
    }
}

proof fn lemma_piece(b: Seq<u8>, x: Seq<u8>, y: Seq<u8>, z: Seq<u8>)
    requires
        b == x + y + z,
    ensures
        b.subrange(x.len() as int, (x.len() + y.len()) as int) == y,
        x.len() + y.len() <= b.len(),
{
    assert(b.subrange(x.len() as int, (x.len() + y.len()) as int) =~= y);
}

proof fn lemma_key_gc_distinct()
    ensures
        key_gc() != key_auto_load(),
        key_gc() != key_collection_id(),
        key_gc() != key_encoding(),
        key_gc() != key_should_load(),
        key_auto_load() != key_collection_id(),
        key_auto_load() != key_encoding(),
        key_auto_load() != key_should_load(),
        key_collection_id() != key_encoding(),
        key_collection_id() != key_should_load(),
        key_encoding() != key_should_load(),
{
    assert(key_gc().len() != key_auto_load().len());
    assert(key_gc().len() != key_collection_id().len());
    assert(key_gc().len() != key_encoding().len());
    assert(key_gc().len() != key_should_load().len());
    assert(key_auto_load().len() != key_collection_id().len());
    assert(key_auto_load()[0] != key_encoding()[0]);
    assert(key_auto_load().len() != key_should_load().len());
    assert(key_collection_id().len() != key_encoding().len());
    assert(key_collection_id().len() != key_should_load().len());
    assert(key_encoding().len() != key_should_load().len());
}

/// An entry whose key is `key` and whose value is a boolean, at `s`.
proof fn lemma_bool_entry(b: Seq<u8>, s: int, key: Seq<u8>, v: bool, acc: OptionsView)
    requires
        0 <= s,
        key.len() <= 12,
        b.subrange(s, s + raw_bytes(key).len() + 1) == raw_bytes(key) + bool_value(v),
        s + raw_bytes(key).len() + 1 <= b.len(),
    ensures
        read_raw(b, s) == Some((key, s + raw_bytes(key).len())),
        any_end(b, s + raw_bytes(key).len()) == Some(s + raw_bytes(key).len() + 1),
        b[s + raw_bytes(key).len()] == (if v {
            TAG_TRUE
        } else {
            TAG_FALSE
        }),
{
    let r = raw_bytes(key);
    assert(b.subrange(s, s + r.len()) =~= b.subrange(s, s + r.len() + 1).subrange(0, r.len() as int));
    assert((r + bool_value(v)).subrange(0, r.len() as int) =~= r);
    lemma_raw_at(b, s, key);
    assert(b[s + r.len()] == b.subrange(s, s + r.len() + 1)[r.len() as int]);
}

/// A length-prefixed byte string found at `s` reads back as itself.
proof fn lemma_raw_at(b: Seq<u8>, s: int, key: Seq<u8>)
    requires
        0 <= s,
        key.len() <= u64::MAX,
        s + raw_bytes(key).len() <= b.len(),
        b.subrange(s, s + raw_bytes(key).len()) == raw_bytes(key),
    ensures
        read_raw(b, s) == Some((key, s + raw_bytes(key).len())),
{
    let vb = varuint_bytes(key.len());
    assert(b.subrange(s, s + vb.len()) =~= raw_bytes(key).subrange(0, vb.len() as int));
    assert(raw_bytes(key).subrange(0, vb.len() as int) =~= vb);
    lemma_varuint_at(b, s, key.len());
    assert(b.subrange(s + vb.len(), s + vb.len() + key.len()) =~= raw_bytes(key).subrange(
        vb.len() as int,
        (vb.len() + key.len()) as int,
    ));
    assert(raw_bytes(key).subrange(vb.len() as int, (vb.len() + key.len()) as int) =~= key);
}

/// A variable-length integer found at `s` reads back as itself.
proof fn lemma_varuint_at(b: Seq<u8>, s: int, v: nat)
    requires
        0 <= s,
        v <= u64::MAX,
        s + varuint_bytes(v).len() <= b.len(),
        b.subrange(s, s + varuint_bytes(v).len()) == varuint_bytes(v),
    ensures
        read_varuint(b, s) == Some((v, s + varuint_bytes(v).len())),
    decreases v,
{
    let vb = varuint_bytes(v);
    assert(b[s] == vb[0]);
    if v >= 128 {
        let rest = varuint_bytes(v / 128);
        assert(b.subrange(s + 1, s + 1 + rest.len()) =~= vb.subrange(1, vb.len() as int));
        assert(vb.subrange(1, vb.len() as int) =~= rest);
        lemma_varuint_at(b, s + 1, v / 128);
        assert((v % 128 + 128) as u8 - 128 + 128 * (v / 128) == v) by (nonlinear_arith)
            requires
                v >= 128,
        ;
    }
}

/// The settings after a boolean entry under one of the keys `gc`, `autoLoad`, `shouldLoad`.
pub open spec fn after_bool(key: Seq<u8>, v: bool, acc: OptionsView) -> OptionsView {
    if key == key_gc() {
        OptionsView { skip_gc: !v, ..acc }
    } else if key == key_auto_load() {
        OptionsView { auto_load: v, ..acc }
    } else {
        acc
    }
}

proof fn lemma_bool_step(b: Seq<u8>, x: Seq<u8>, rest: Seq<u8>, key: Seq<u8>, v: bool, n: nat, acc: OptionsView)
    requires
        b == x + (raw_bytes(key) + bool_value(v)) + rest,
        key == key_gc() || key == key_auto_load() || key == key_should_load(),
        n > 0,
    ensures
        overlay_entries(b, x.len() as int, n, acc) == overlay_entries(
            b,
            (x.len() + raw_bytes(key).len() + 1) as int,
            (n - 1) as nat,
            after_bool(key, v, acc),
        ),
{
    reveal(overlay_entries);
    lemma_key_gc_distinct();
    lemma_piece(b, x, raw_bytes(key) + bool_value(v), rest);
    lemma_bool_entry(b, x.len() as int, key, v, acc);
}

proof fn lemma_overlay_done(b: Seq<u8>, pos: int, acc: OptionsView)
    requires
        0 <= pos <= b.len(),
    ensures
        overlay_entries(b, pos, 0, acc) == Some((acc, pos)),
{
    reveal(overlay_entries);
}

proof fn lemma_collection_step(
    b: Seq<u8>,
    x: Seq<u8>,
    rest: Seq<u8>,
    c: Seq<char>,
    n: nat,
    acc: OptionsView,
)
    requires
        b == x + collection_entry(Some(c)) + rest,
        encode_utf8(c).len() <= u64::MAX,
        n > 0,
    ensures
        overlay_entries(b, x.len() as int, n, acc) == overlay_entries(
            b,
            (x.len() + collection_entry(Some(c)).len()) as int,
            (n - 1) as nat,
            OptionsView { collection_id: Some(c), ..acc },
        ),
{
    reveal(overlay_entries);
    broadcast use vstd::utf8::encode_utf8_valid_utf8, vstd::utf8::encode_utf8_decode_utf8;

    lemma_key_gc_distinct();
    let kc = raw_bytes(key_collection_id());
    let cb = raw_bytes(encode_utf8(c));
    let e1 = x.len() as int;
    assert(b =~= x + kc + (seq![TAG_STRING] + cb + rest));
    lemma_piece(b, x, kc, seq![TAG_STRING] + cb + rest);
    lemma_raw_at(b, e1, key_collection_id());
    let v = e1 + kc.len();
    assert(b =~= x + kc + seq![TAG_STRING] + (cb + rest));
    lemma_piece(b, x + kc, seq![TAG_STRING], cb + rest);
    assert(b[v] == b.subrange(v, v + 1)[0]);
    assert(b =~= x + kc + seq![TAG_STRING] + cb + rest);
    lemma_piece(b, x + kc + seq![TAG_STRING], cb, rest);
    lemma_raw_at(b, v + 1, encode_utf8(c));
}

proof fn lemma_offset_step(
    b: Seq<u8>,
    x: Seq<u8>,
    rest: Seq<u8>,
    k: OffsetKind,
    n: nat,
    acc: OptionsView,
)
    requires
        b == x + offset_entry(k) + rest,
        n > 0,
    ensures
        overlay_entries(b, x.len() as int, n, acc) == overlay_entries(
            b,
            (x.len() + offset_entry(k).len()) as int,
            (n - 1) as nat,
            OptionsView { offset_kind: k, ..acc },
        ),
{
    reveal(overlay_entries);
    lemma_key_gc_distinct();
    let ke = raw_bytes(key_encoding());
    let e2 = x.len() as int;
    let tail = seq![TAG_BIGINT] + offset_code(k);
    assert(b =~= x + ke + (tail + rest));
    lemma_piece(b, x, ke, tail + rest);
    lemma_raw_at(b, e2, key_encoding());
    let v2 = e2 + ke.len();
    assert(b =~= x + ke + tail + rest);
    lemma_piece(b, x + ke, tail, rest);
    assert(b[v2] == b.subrange(v2, v2 + 9)[0]);
    assert(b.subrange(v2 + 1, v2 + 9) =~= b.subrange(v2, v2 + 9).subrange(1, 9));
    assert(b.subrange(v2 + 1, v2 + 9) =~= offset_code(k));
    assert(offset_code(OffsetKind::Utf16)[7] != offset_code(OffsetKind::Bytes)[7]);
}

proof fn lemma_collection_part(
    b: Seq<u8>,
    x: Seq<u8>,
    rest: Seq<u8>,
    cid: Option<Seq<char>>,
    m: nat,
    acc: OptionsView,
)
    requires
        b == x + collection_entry(cid) + rest,
        acc.collection_id is None,
        cid matches Some(c) ==> encode_utf8(c).len() <= u64::MAX && m > 0,
    ensures
        overlay_entries(b, x.len() as int, m, acc) == overlay_entries(
            b,
            (x + collection_entry(cid)).len() as int,
            if cid is Some {
                (m - 1) as nat
            } else {
                m
            },
            OptionsView { collection_id: cid, ..acc },
        ),
{
    if let Some(c) = cid {
        lemma_collection_step(b, x, rest, c, m, acc);
    } else {
        assert(collection_entry(cid) =~= Seq::<u8>::empty());
        assert(OptionsView { collection_id: cid, ..acc } == acc);
    }
}

#[verifier::rlimit(40)]
proof fn lemma_entries_decode(b: Seq<u8>, x: Seq<u8>, o: OptionsView, n: nat, acc: OptionsView)
    requires
        acc.collection_id is None,
        b == x + options_entries(o),
        n == (if o.collection_id is Some {
            5nat
        } else {
            4nat
        }),
        o.collection_id matches Some(c) ==> encode_utf8(c).len() <= u64::MAX,
    ensures
        overlay_entries(b, x.len() as int, n, acc) == Some(
            (
                OptionsView {
                    skip_gc: o.skip_gc,
                    collection_id: o.collection_id,
                    offset_kind: o.offset_kind,
                    auto_load: o.auto_load,
                    ..acc
                },
                b.len() as int,
            ),
        ),
{
    lemma_key_gc_distinct();
    let p1 = gc_entry(o.skip_gc);
    let p2 = collection_entry(o.collection_id);
    let p3 = offset_entry(o.offset_kind);
    let p4a = raw_bytes(key_auto_load()) + bool_value(o.auto_load);
    let p4b = raw_bytes(key_should_load()) + bool_value(o.should_load);
    let e = Seq::<u8>::empty();
    let acc1 = OptionsView { skip_gc: o.skip_gc, ..acc };
    assert(b =~= x + p1 + (p2 + p3 + p4a + p4b));
    lemma_bool_step(b, x, p2 + p3 + p4a + p4b, key_gc(), !o.skip_gc, n, acc);
    let m = (n - 1) as nat;
    let acc2 = OptionsView { collection_id: o.collection_id, ..acc1 };
    let m2: nat = if o.collection_id is Some {
        (m - 1) as nat
    } else {
        m
    };
    assert(b =~= (x + p1) + p2 + (p3 + p4a + p4b));
    lemma_collection_part(b, x + p1, p3 + p4a + p4b, o.collection_id, m, acc1);
    let acc3 = OptionsView { offset_kind: o.offset_kind, ..acc2 };
    assert(b =~= (x + p1 + p2) + p3 + (p4a + p4b));
    lemma_offset_step(b, x + p1 + p2, p4a + p4b, o.offset_kind, m2, acc2);
    let acc4 = OptionsView { auto_load: o.auto_load, ..acc3 };
    assert(b =~= (x + p1 + p2 + p3) + p4a + p4b);
    lemma_bool_step(
        b,
        x + p1 + p2 + p3,
        p4b,
        key_auto_load(),
        o.auto_load,
        (m2 - 1) as nat,
        acc3,
    );
    assert(b =~= (x + p1 + p2 + p3 + p4a) + p4b + e);
    lemma_bool_step(
        b,
        x + p1 + p2 + p3 + p4a,
        e,
        key_should_load(),
        o.should_load,
        (m2 - 2) as nat,
        acc4,
    );
    lemma_overlay_done(b, b.len() as int, acc4);
}

/// Encoding options and decoding the bytes gives them back, with the replica identifier
/// that the decoder was given and `should_load` false.
pub proof fn lemma_options_round_trip(o: OptionsView, client_id: u64)
    requires
        encode_utf8(o.guid).len() <= u64::MAX,
        o.collection_id matches Some(c) ==> encode_utf8(c).len() <= u64::MAX,
    ensures
        decode_options(encode_options(o), client_id) == Some(
            OptionsView { client_id, should_load: false, ..o },
        ),
{
    broadcast use vstd::utf8::encode_utf8_valid_utf8, vstd::utf8::encode_utf8_decode_utf8;

    let b = encode_options(o);
    let g = encode_utf8(o.guid);
    let n: nat = if o.collection_id is Some {
        5
    } else {
        4
    };
    let head = raw_bytes(g);
    let vn = varuint_bytes(n);
    let rest = options_entries(o);
    let e = Seq::<u8>::empty();
    assert(b =~= e + head + (seq![TAG_MAP] + vn + rest));
    lemma_piece(b, e, head, seq![TAG_MAP] + vn + rest);
    assert(e + head =~= head);
    lemma_raw_at(b, 0, g);
    let p = head.len() as int;
    assert(b =~= head + seq![TAG_MAP] + (vn + rest));
    lemma_piece(b, head, seq![TAG_MAP], vn + rest);
    assert(b[p] == b.subrange(p, p + 1)[0]);
    assert(b =~= (head + seq![TAG_MAP]) + vn + rest);
    lemma_piece(b, head + seq![TAG_MAP], vn, rest);
    lemma_varuint_at(b, p + 1, n);
    let base = OptionsView {
        client_id,
        guid: o.guid,
        collection_id: None,
        offset_kind: OffsetKind::Bytes,
        skip_gc: false,
        auto_load: false,
        should_load: false,
    };
    assert(b =~= (head + seq![TAG_MAP] + vn) + rest);
    lemma_entries_decode(b, head + seq![TAG_MAP] + vn, o, n, base);
}

} // verus!
