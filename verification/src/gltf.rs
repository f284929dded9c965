//! Binary glTF 2.0 (GLB) for hunt meshes: the container's chunks, and the
//! POSITION / NORMAL / index accessors of the first mesh primitive.

use vstd::prelude::*;
use vstd::string::StringExecFns;
use vstd::slice::slice_subrange;
use vstd::utf8::{decode_utf8, valid_utf8};
use vstd::string::StrSliceExecFns;
use crate::text::{decimal, push_decimal};

verus! {

/// A load failure, with its message.
#[derive(Debug)]
pub enum Error {
    Msg(String),
}

impl Error {
    /// The message.
    pub fn message(&self) -> (m: &str)
        ensures
            m@ == msg_of(*self),
    {
        match self {
            Error::Msg(s) => s.as_str(),
        }
    }
}

/// The message of an error.
pub open spec fn msg_of(e: Error) -> Seq<char> {
    match e {
        Error::Msg(s) => s@,
    }
}

/// The little-endian `u32` at `b[o..o + 4]`.
pub open spec fn le32(b: Seq<u8>, o: int) -> int {
    b[o] + b[o + 1] * 0x100 + b[o + 2] * 0x1_0000 + b[o + 3] * 0x100_0000
}

/// The little-endian `u16` at `b[o..o + 2]`.
pub open spec fn le16(b: Seq<u8>, o: int) -> int {
    b[o] + b[o + 1] * 0x100
}

fn read_le32(b: &[u8], o: usize) -> (v: u32)
    requires
        o + 4 <= b@.len(),
    ensures
        v == le32(b@, o as int),
{
    (b[o] as u32) + (b[o + 1] as u32) * 0x100 + (b[o + 2] as u32) * 0x1_0000 + (b[o + 3] as u32)
        * 0x100_0000
}

fn read_le16(b: &[u8], o: usize) -> (v: u32)
    requires
        o + 2 <= b@.len(),
    ensures
        v == le16(b@, o as int),
{
    (b[o] as u32) + (b[o + 1] as u32) * 0x100
}

/// Unicode White_Space, the characters `char::is_whitespace` accepts.
pub open spec fn white_space(c: char) -> bool {
    let u = c as u32;
    ||| 0x09 <= u <= 0x0d
    ||| u == 0x20
    ||| u == 0x85
    ||| u == 0xa0
    ||| u == 0x1680
    ||| 0x2000 <= u <= 0x200a
    ||| u == 0x2028
    ||| u == 0x2029
    ||| u == 0x202f
    ||| u == 0x205f
    ||| u == 0x3000
}

/// `s` without its trailing NUL characters.
pub open spec fn trim_nuls(s: Seq<char>) -> Seq<char>
    decreases s.len(),
{
    if s.len() > 0 && s.last() == '\0' {
        trim_nuls(s.drop_last())
    } else {
        s
    }
}

/// `s` without its trailing white space.
pub open spec fn trim_spaces(s: Seq<char>) -> Seq<char>
    decreases s.len(),
{
    if s.len() > 0 && white_space(s.last()) {
        trim_spaces(s.drop_last())
    } else {
        s
    }
}

/// What `std::str::from_utf8` reports (its `Display`) for bytes that are
/// not UTF-8.
pub uninterp spec fn utf8_error(bytes: Seq<u8>) -> Seq<char>;

/// `std::str::from_utf8`: the text when `bytes` is valid UTF-8 (decoded),
/// else the error's message. Which message is not stated beyond naming it.
#[verifier::external_body]
fn utf8_text(bytes: &[u8]) -> (r: Result<&str, String>)
    ensures
        r is Ok <==> valid_utf8(bytes@),
        r matches Ok(s) ==> s@ == decode_utf8(bytes@),
        r matches Err(e) ==> e@ == utf8_error(bytes@),
{
    std::str::from_utf8(bytes).map_err(|e| e.to_string())
}

/// `s` without its trailing NUL characters (`str::trim_end_matches('\0')`).
fn trim_nul(s: &str) -> (r: &str)
    ensures
        r@ == trim_nuls(s@),
{
    let mut n = s.unicode_len();
    assert(s@.subrange(0, n as int) =~= s@);
    loop
        invariant
            n <= s@.len(),
            trim_nuls(s@) == trim_nuls(s@.subrange(0, n as int)),
        ensures
            n <= s@.len(),
            trim_nuls(s@) == trim_nuls(s@.subrange(0, n as int)),
            n == 0 || s@[n - 1] != '\0',
        decreases n,
    {
        if n == 0 {
            break;
        }
        if s.get_char(n - 1) != '\0' {
            break;
        }
        assert(s@.subrange(0, n as int).drop_last() =~= s@.subrange(0, n - 1));
        n = n - 1;
    }
    assert(n == 0 ==> s@.subrange(0, n as int).len() == 0);
    assert(n > 0 ==> s@.subrange(0, n as int).last() == s@[n - 1]);
    s.substring_char(0, n)
}

fn is_white_space(c: char) -> (b: bool)
    ensures
        b == white_space(c),
{
    let u = c as u32;
    (0x09 <= u && u <= 0x0d) || u == 0x20 || u == 0x85 || u == 0xa0 || u == 0x1680 || (0x2000 <= u
        && u <= 0x200a) || u == 0x2028 || u == 0x2029 || u == 0x202f || u == 0x205f || u == 0x3000
}

/// `s` without its trailing white space (`str::trim_end`).
fn trim_space(s: &str) -> (r: &str)
    ensures
        r@ == trim_spaces(s@),
{
    let mut n = s.unicode_len();
    assert(s@.subrange(0, n as int) =~= s@);
    loop
        invariant
            n <= s@.len(),
            trim_spaces(s@) == trim_spaces(s@.subrange(0, n as int)),
        ensures
            n <= s@.len(),
            trim_spaces(s@) == trim_spaces(s@.subrange(0, n as int)),
            n == 0 || !white_space(s@[n - 1]),
        decreases n,
    {
        if n == 0 {
            break;
        }
        if !is_white_space(s.get_char(n - 1)) {
            break;
        }
        assert(s@.subrange(0, n as int).drop_last() =~= s@.subrange(0, n - 1));
        n = n - 1;
    }
    assert(n == 0 ==> s@.subrange(0, n as int).len() == 0);
    assert(n > 0 ==> s@.subrange(0, n as int).last() == s@[n - 1]);
    s.substring_char(0, n)
}

/// The bytes `b"JSON"`.
pub open spec fn is_json_tag(t: Seq<u8>) -> bool {
    t == seq![0x4au8, 0x53u8, 0x4fu8, 0x4eu8]
}

/// The bytes `b"BIN\0"`.
pub open spec fn is_bin_tag(t: Seq<u8>) -> bool {
    t == seq![0x42u8, 0x49u8, 0x4eu8, 0x00u8]
}

/// Walks the chunks from `off` on, keeping the last JSON text (decoded and
/// trimmed of trailing NULs and white space) and the last binary chunk's
/// span; other chunks are skipped. A chunk running past the end, or a JSON
/// chunk that is not UTF-8, fails.
pub open spec fn walk_chunks(
    b: Seq<u8>,
    off: int,
    json: Option<Seq<char>>,
    bin: Option<(int, int)>,
) -> Result<(Option<Seq<char>>, Option<(int, int)>), Seq<char>>
    decreases b.len() - off,
{
    if off < 0 || off + 8 > b.len() {
        Ok((json, bin))
    } else {
        let p = off + 8;
        let n = le32(b, off);
        if p + n > b.len() {
            Err("chunk overrun"@)
        } else {
            let payload = b.subrange(p, p + n);
            let tag = b.subrange(off + 4, off + 8);
            if is_json_tag(tag) {
                if !valid_utf8(payload) {
                    Err(utf8_error(payload))
                } else {
                    walk_chunks(b, p + n, Some(trim_spaces(trim_nuls(decode_utf8(payload)))), bin)
                }
            } else if is_bin_tag(tag) {
                walk_chunks(b, p + n, json, Some((p, p + n)))
            } else {
                walk_chunks(b, p + n, json, bin)
            }
        }
    }
}

/// The 12-byte header is sound: `glTF`, version 2, and a length within the
/// bytes at hand.
pub open spec fn header_ok(b: Seq<u8>) -> bool {
    &&& b.len() >= 12
    &&& b[0] == 0x67 && b[1] == 0x6c && b[2] == 0x54 && b[3] == 0x46
    &&& le32(b, 4) == 2
    &&& le32(b, 8) <= b.len()
}

/// A GLB file's JSON text and binary chunk (empty when there is none): it
/// must be at least 12 bytes, start with `glTF`, be version 2, not claim
/// more bytes than it has, have sound chunks, and carry a JSON chunk.
pub open spec fn glb_of(b: Seq<u8>) -> Result<(Seq<char>, Seq<u8>), Seq<char>> {
    if b.len() < 12 {
        Err("glb too short"@)
    } else if !(b[0] == 0x67 && b[1] == 0x6c && b[2] == 0x54 && b[3] == 0x46) {
        Err("missing glTF magic"@)
    } else if le32(b, 4) != 2 {
        Err("unsupported glTF version "@ + decimal(le32(b, 4) as nat))
    } else if le32(b, 8) > b.len() {
        Err("glb length exceeds buffer"@)
    } else {
        match walk_chunks(b, 12, None, None) {
            Err(e) => Err(e),
            Ok((None, _)) => Err("no JSON chunk"@),
            Ok((Some(j), bin)) => Ok(
                (
                    j,
                    match bin {
                        Some((a, z)) => b.subrange(a, z),
                        None => Seq::empty(),
                    },
                ),
            ),
        }
    }
}

/// Splits a `.glb` (binary glTF 2.0) into its JSON text and binary chunk.
pub fn glb_chunks(bytes: &[u8]) -> (r: Result<(&str, &[u8]), Error>)
    ensures
        match r {
            Ok((j, bin)) => glb_of(bytes@) == Ok::<(Seq<char>, Seq<u8>), Seq<char>>((j@, bin@)),
            Err(e) => glb_of(bytes@) == Err::<(Seq<char>, Seq<u8>), Seq<char>>(msg_of(e)),
        },
{
    let len = bytes.len();
    if len < 12 {
        return Err(Error::Msg("glb too short".to_owned()));
    }
    if !(bytes[0] == 0x67 && bytes[1] == 0x6c && bytes[2] == 0x54 && bytes[3] == 0x46) {
        return Err(Error::Msg("missing glTF magic".to_owned()));
    }
    let version = read_le32(bytes, 4);
    if version != 2 {
        let mut m = String::new();
        m.append("unsupported glTF version ");
        push_decimal(&mut m, version);
        return Err(Error::Msg(m));
    }
    let total = read_le32(bytes, 8);
    if total as u64 > len as u64 {
        return Err(Error::Msg("glb length exceeds buffer".to_owned()));
    }
    let mut json: Option<&str> = None;
    let mut bin: Option<&[u8]> = None;
    let ghost mut bin_at: Option<(int, int)> = None;
    let mut off: usize = 12;
    assert(header_ok(bytes@));
    while len - off >= 8
        invariant
            len == bytes@.len(),
            header_ok(bytes@),
            12 <= off <= len,
            walk_chunks(bytes@, 12, None, None) == walk_chunks(
                bytes@,
                off as int,
                match json {
                    Some(j) => Some(j@),
                    None => None,
                },
                bin_at,
            ),
            match bin_at {
                Some((a, z)) => bin matches Some(s) && 0 <= a <= z <= len && s@ == bytes@.subrange(
                    a,
                    z,
                ),
                None => bin is None,
            },
        decreases len - off,
    {
        let n = read_le32(bytes, off);
        let p = off + 8;
        if n as usize > len - p {
            return Err(Error::Msg("chunk overrun".to_owned()));
        }
        let end = p + n as usize;
        let payload = slice_subrange(bytes, p, end);
        let t0 = bytes[off + 4];
        let t1 = bytes[off + 5];
        let t2 = bytes[off + 6];
        let t3 = bytes[off + 7];
        let ghost tag = bytes@.subrange(off + 4, off + 8);
        proof {
            assert(tag =~= seq![t0, t1, t2, t3]);
        }
        if t0 == 0x4a && t1 == 0x53 && t2 == 0x4f && t3 == 0x4e {
            assert(is_json_tag(tag));
            match utf8_text(payload) {
                Ok(text) => {
                    json = Some(trim_space(trim_nul(text)));
                },
                Err(e) => {
                    return Err(Error::Msg(e));
                },
            }
        } else if t0 == 0x42 && t1 == 0x49 && t2 == 0x4e && t3 == 0x00 {
            assert(!is_json_tag(tag));
            assert(is_bin_tag(tag));
            bin = Some(payload);
            proof {
                bin_at = Some((p as int, end as int));
            }
        } else {
            assert(!is_json_tag(tag));
            assert(!is_bin_tag(tag));
        }
        off = end;
    }
    match json {
        Some(j) => {
            let b: &[u8] = match bin {
                Some(s) => s,
                None => slice_subrange(bytes, 0, 0),
            };
            proof {
                if bin_at is None {
                    assert(b@ =~= Seq::<u8>::empty());
                }
            }
            Ok((j, b))
        },
        None => Err(Error::Msg("no JSON chunk".to_owned())),
    }
}

/// An accessor of the glTF JSON, as far as its fields are unsigned integers.
#[derive(Clone, Copy, Debug)]
pub struct AccessorJson {
    pub count: Option<u64>,
    pub component_type: Option<u64>,
    pub buffer_view: Option<u64>,
    pub byte_offset: Option<u64>,
}

/// A buffer view of the glTF JSON, as far as its fields are unsigned
/// integers.
#[derive(Clone, Copy, Debug)]
pub struct ViewJson {
    pub byte_offset: Option<u64>,
    pub byte_length: Option<u64>,
    pub byte_stride: Option<u64>,
}

/// The attributes object of a primitive: its POSITION and NORMAL accessor
/// indices, where they are unsigned integers.
#[derive(Clone, Copy, Debug)]
pub struct AttrsJson {
    pub position: Option<u64>,
    pub normal: Option<u64>,
}

/// A mesh primitive: its attributes (when an object) and index accessor.
#[derive(Clone, Copy, Debug)]
pub struct PrimJson {
    pub attributes: Option<AttrsJson>,
    pub indices: Option<u64>,
}

/// What the loader reads of the glTF JSON document.
#[derive(Clone, Debug)]
pub struct GltfDoc {
    /// `meshes` is an array.
    pub has_meshes: bool,
    /// The first primitive of the first mesh, when there is one.
    pub primitive: Option<PrimJson>,
    /// `accessors`, when an array.
    pub accessors: Option<Vec<AccessorJson>>,
    /// `bufferViews`, when an array.
    pub views: Option<Vec<ViewJson>>,
}

/// A mesh as read from the buffer: float components as their IEEE bits.
#[derive(Clone, Debug)]
pub struct MeshBits {
    pub positions: Vec<(u32, u32, u32)>,
    pub normals: Vec<(u32, u32, u32)>,
    pub indices: Vec<u32>,
}

/// Where accessor `i` reads in a buffer of `bin_len` bytes: (start, count,
/// component type, stride), or why it cannot.
pub open spec fn view_of(accs: Seq<AccessorJson>, views: Seq<ViewJson>, bin_len: int, i: int) -> Result<
    (int, int, u32, Option<int>),
    Seq<char>,
> {
    if !(0 <= i < accs.len()) {
        Err("accessor OOB"@)
    } else {
        let a = accs[i];
        match (a.count, a.component_type, a.buffer_view) {
            (None, _, _) => Err("no count"@),
            (Some(_), None, _) => Err("no componentType"@),
            (Some(_), Some(_), None) => Err("no bufferView"@),
            (Some(count), Some(comp), Some(vi)) => {
                let acc_off: int = match a.byte_offset {
                    Some(x) => x as int,
                    None => 0,
                };
                if vi >= views.len() {
                    Err("view OOB"@)
                } else {
                    let v = views[vi as int];
                    let view_off: int = match v.byte_offset {
                        Some(x) => x as int,
                        None => 0,
                    };
                    match v.byte_length {
                        None => Err("no byteLength"@),
                        Some(vl) => if view_off + acc_off > bin_len || view_off + vl > bin_len {
                            Err("buffer overrun"@)
                        } else {
                            Ok(
                                (
                                    view_off + acc_off,
                                    count as int,
                                    comp as u32,
                                    match v.byte_stride {
                                        Some(s) => Some(s as int),
                                        None => None,
                                    },
                                ),
                            )
                        },
                    }
                }
            },
        }
    }
}

/// Some element of `count` elements `step` bytes apart, each `size` bytes
/// long, runs past the `len` bytes at hand.
pub open spec fn overruns(count: int, step: int, size: int, len: int) -> bool {
    exists|i: int| 0 <= i < count && #[trigger] (i * step) + size > len
}

/// The three little-endian `u32`s at `d[o..o + 12]`.
pub open spec fn vec3_at(d: Seq<u8>, o: int) -> (u32, u32, u32) {
    (le32(d, o) as u32, le32(d, o + 4) as u32, le32(d, o + 8) as u32)
}

/// The float triples accessor `i` holds (as bits): it must be of floats
/// (component type 5126), its elements 12 bytes apart unless the view sets
/// a stride, all within the buffer.
pub open spec fn vec3s_of(accs: Seq<AccessorJson>, views: Seq<ViewJson>, bin: Seq<u8>, i: int) -> Result<
    Seq<(u32, u32, u32)>,
    Seq<char>,
> {
    match view_of(accs, views, bin.len() as int, i) {
        Err(e) => Err(e),
        Ok((start, count, comp, stride)) => {
            let d = bin.subrange(start, bin.len() as int);
            let step = match stride {
                Some(s) => s,
                None => 12,
            };
            if comp != 5126 {
                Err("POSITION/NORMAL must be FLOAT"@)
            } else if overruns(count, step, 12, d.len() as int) {
                Err("vec3 overrun"@)
            } else {
                Ok(Seq::new(count as nat, |k: int| vec3_at(d, k * step)))
            }
        },
    }
}

/// Byte width of an index component type: 1, 2 or 4 for unsigned bytes,
/// shorts and ints (5121, 5123, 5125).
pub open spec fn index_width(comp: u32) -> int {
    if comp == 5121 {
        1
    } else if comp == 5123 {
        2
    } else if comp == 5125 {
        4
    } else {
        0
    }
}

/// The index at `d[o..]` of the given width, little-endian.
pub open spec fn index_at(d: Seq<u8>, o: int, w: int) -> u32 {
    if w == 1 {
        d[o] as u32
    } else if w == 2 {
        le16(d, o) as u32
    } else {
        le32(d, o) as u32
    }
}

/// The indices accessor `i` holds: unsigned bytes, shorts or ints,
/// `width` bytes apart unless the view sets a stride, all within the buffer.
pub open spec fn indices_of(accs: Seq<AccessorJson>, views: Seq<ViewJson>, bin: Seq<u8>, i: int) -> Result<
    Seq<u32>,
    Seq<char>,
> {
    match view_of(accs, views, bin.len() as int, i) {
        Err(e) => Err(e),
        Ok((start, count, comp, stride)) => {
            let d = bin.subrange(start, bin.len() as int);
            let w = index_width(comp);
            let step = match stride {
                Some(s) => s,
                None => w,
            };
            if w == 0 {
                Err("bad index componentType "@ + decimal(comp as nat))
            } else if overruns(count, step, w, d.len() as int) {
                Err("index overrun"@)
            } else {
                Ok(Seq::new(count as nat, |k: int| index_at(d, k * step, w)))
            }
        },
    }
}

/// The product of two `u64`s leaves room in a `u128`.
proof fn lemma_product_fits(a: u64, b: u64)
    ensures
        (a as int) * (b as int) + 16 <= u128::MAX,
{
    assert((a as int) * (b as int) <= 0xffff_ffff_ffff_ffff * 0xffff_ffff_ffff_ffff) by (nonlinear_arith)
        requires
            0 <= a <= 0xffff_ffff_ffff_ffff,
            0 <= b <= 0xffff_ffff_ffff_ffff,
    ;
}

/// An accessor reads from its view's byte offset plus its own: when the
/// float triples of accessor `i` read, the `k`-th is the three
/// little-endian words at `v + x + k * step` of the buffer, where `v` and
/// `x` are the view's and the accessor's byte offsets (0 when unset) and
/// `step` the view's stride (12 when unset); and there are as many as the
/// accessor's count.
pub proof fn lemma_accessor_reads(accs: Seq<AccessorJson>, views: Seq<ViewJson>, bin: Seq<u8>, i: int)
    ensures
        vec3s_of(accs, views, bin, i) matches Ok(t) ==> {
            let a = accs[i];
            let v = views[a.buffer_view->0 as int];
            let x: int = match a.byte_offset {
                Some(b) => b as int,
                None => 0,
            };
            let vo: int = match v.byte_offset {
                Some(b) => b as int,
                None => 0,
            };
            let step: int = match v.byte_stride {
                Some(s) => s as int,
                None => 12,
            };
            &&& 0 <= i < accs.len()
            &&& a.component_type matches Some(c) && c as u32 == 5126
            &&& t.len() == a.count->0
            &&& forall|k: int|
                0 <= k < t.len() ==> #[trigger] t[k] == (
                    (bin[vo + x + k * step] + bin[vo + x + k * step + 1] * 0x100 + bin[vo + x + k
                        * step + 2] * 0x1_0000 + bin[vo + x + k * step + 3] * 0x100_0000) as u32,
                    (bin[vo + x + k * step + 4] + bin[vo + x + k * step + 5] * 0x100 + bin[vo + x + k
                        * step + 6] * 0x1_0000 + bin[vo + x + k * step + 7] * 0x100_0000) as u32,
                    (bin[vo + x + k * step + 8] + bin[vo + x + k * step + 9] * 0x100 + bin[vo + x + k
                        * step + 10] * 0x1_0000 + bin[vo + x + k * step + 11] * 0x100_0000) as u32,
                )
        },
        indices_of(accs, views, bin, i) matches Ok(t) ==> {
            let a = accs[i];
            let v = views[a.buffer_view->0 as int];
            let x: int = match a.byte_offset {
                Some(b) => b as int,
                None => 0,
            };
            let vo: int = match v.byte_offset {
                Some(b) => b as int,
                None => 0,
            };
            let w = index_width(a.component_type->0 as u32);
            let step: int = match v.byte_stride {
                Some(s) => s as int,
                None => w,
            };
            &&& 0 <= i < accs.len()
            &&& t.len() == a.count->0
            &&& forall|k: int|
                0 <= k < t.len() ==> #[trigger] t[k] == if w == 1 {
                    bin[vo + x + k * step] as u32
                } else if w == 2 {
                    (bin[vo + x + k * step] + bin[vo + x + k * step + 1] * 0x100) as u32
                } else {
                    (bin[vo + x + k * step] + bin[vo + x + k * step + 1] * 0x100 + bin[vo + x + k
                        * step + 2] * 0x1_0000 + bin[vo + x + k * step + 3] * 0x100_0000) as u32
                }
        },
{
    match vec3s_of(accs, views, bin, i) {
        Ok(t) => {
            match view_of(accs, views, bin.len() as int, i) {
                Ok((start, count, comp, stride)) => {
                    let d = bin.subrange(start, bin.len() as int);
                    let step: int = match stride {
                        Some(s) => s,
                        None => 12,
                    };
                    assert(step >= 0);
                    assert forall|k: int| 0 <= k < t.len() implies #[trigger] t[k] == (
                        (bin[start + k * step] + bin[start + k * step + 1] * 0x100 + bin[start + k
                            * step + 2] * 0x1_0000 + bin[start + k * step + 3] * 0x100_0000) as u32,
                        (bin[start + k * step + 4] + bin[start + k * step + 5] * 0x100 + bin[start
                            + k * step + 6] * 0x1_0000 + bin[start + k * step + 7] * 0x100_0000) as u32,
                        (bin[start + k * step + 8] + bin[start + k * step + 9] * 0x100 + bin[start
                            + k * step + 10] * 0x1_0000 + bin[start + k * step + 11] * 0x100_0000) as u32,
                    ) by {
                        assert(!((k * step) + 12 > d.len()));
                        assert(0 <= k * step) by (nonlinear_arith)
                            requires
                                0 <= k,
                                0 <= step,
                        ;
                        assert(t[k] == vec3_at(d, k * step));
                    }
                },
                Err(_) => {},
            }
        },
        Err(_) => {},
    }
    match indices_of(accs, views, bin, i) {
        Ok(t) => {
            match view_of(accs, views, bin.len() as int, i) {
                Ok((start, count, comp, stride)) => {
                    let d = bin.subrange(start, bin.len() as int);
                    let w = index_width(comp);
                    let step: int = match stride {
                        Some(s) => s,
                        None => w,
                    };
                    assert(step >= 0);
                    assert forall|k: int| 0 <= k < t.len() implies #[trigger] t[k] == if w == 1 {
                        bin[start + k * step] as u32
                    } else if w == 2 {
                        (bin[start + k * step] + bin[start + k * step + 1] * 0x100) as u32
                    } else {
                        (bin[start + k * step] + bin[start + k * step + 1] * 0x100 + bin[start + k
                            * step + 2] * 0x1_0000 + bin[start + k * step + 3] * 0x100_0000) as u32
                    } by {
                        assert(!((k * step) + w > d.len()));
                        assert(0 <= k * step) by (nonlinear_arith)
                            requires
                                0 <= k,
                                0 <= step,
                        ;
                        assert(t[k] == index_at(d, k * step, w));
                    }
                },
                Err(_) => {},
            }
        },
        Err(_) => {},
    }
}

/// Where accessor `acc_i` reads in `bin`: (start, count, component type,
/// stride).
pub fn acc_view(accessors: &[AccessorJson], views: &[ViewJson], bin_len: usize, acc_i: u64) -> (r:
    Result<(usize, u64, u32, Option<u64>), Error>)
    ensures
        match r {
            Ok((start, count, comp, stride)) => view_of(accessors@, views@, bin_len as int, acc_i as int)
                == Ok::<(int, int, u32, Option<int>), Seq<char>>(
                (
                    start as int,
                    count as int,
                    comp,
                    match stride {
                        Some(s) => Some(s as int),
                        None => None,
                    },
                ),
            ),
            Err(e) => view_of(accessors@, views@, bin_len as int, acc_i as int) == Err::<
                (int, int, u32, Option<int>),
                Seq<char>,
            >(msg_of(e)),
        },
{
    if acc_i >= accessors.len() as u64 {
        return Err(Error::Msg("accessor OOB".to_owned()));
    }
    let a = accessors[acc_i as usize];
    let count = match a.count {
        Some(c) => c,
        None => return Err(Error::Msg("no count".to_owned())),
    };
    let comp = match a.component_type {
        Some(c) => c as u32,
        None => return Err(Error::Msg("no componentType".to_owned())),
    };
    let view_i = match a.buffer_view {
        Some(v) => v,
        None => return Err(Error::Msg("no bufferView".to_owned())),
    };
    let acc_off: u64 = match a.byte_offset {
        Some(x) => x,
        None => 0,
    };
    if view_i >= views.len() as u64 {
        return Err(Error::Msg("view OOB".to_owned()));
    }
    let v = views[view_i as usize];
    let view_off: u64 = match v.byte_offset {
        Some(x) => x,
        None => 0,
    };
    let view_len = match v.byte_length {
        Some(l) => l,
        None => return Err(Error::Msg("no byteLength".to_owned())),
    };
    let start: u128 = view_off as u128 + acc_off as u128;
    if start > bin_len as u128 || view_off as u128 + view_len as u128 > bin_len as u128 {
        return Err(Error::Msg("buffer overrun".to_owned()));
    }
    Ok((start as usize, count, comp, v.byte_stride))
}

/// The float triples (as bits) accessor `acc_i` holds.
pub fn read_f32x3(accessors: &[AccessorJson], views: &[ViewJson], bin: &[u8], acc_i: u64) -> (r:
    Result<Vec<(u32, u32, u32)>, Error>)
    ensures
        match r {
            Ok(v) => vec3s_of(accessors@, views@, bin@, acc_i as int) == Ok::<
                Seq<(u32, u32, u32)>,
                Seq<char>,
            >(v@),
            Err(e) => vec3s_of(accessors@, views@, bin@, acc_i as int) == Err::<
                Seq<(u32, u32, u32)>,
                Seq<char>,
            >(msg_of(e)),
        },
{
    let (start, count, comp, stride) = match acc_view(accessors, views, bin.len(), acc_i) {
        Ok(x) => x,
        Err(e) => return Err(e),
    };
    if comp != 5126 {
        return Err(Error::Msg("POSITION/NORMAL must be FLOAT".to_owned()));
    }
    let data = slice_subrange(bin, start, bin.len());
    let step: u64 = match stride {
        Some(s) => s,
        None => 12,
    };
    let ghost d = data@;
    let ghost want: Result<Seq<(u32, u32, u32)>, Seq<char>> = if overruns(
        count as int,
        step as int,
        12,
        d.len() as int,
    ) {
        Err("vec3 overrun"@)
    } else {
        Ok(Seq::new(count as nat, |k: int| vec3_at(d, k * step)))
    };
    assert(vec3s_of(accessors@, views@, bin@, acc_i as int) == want);
    let mut out: Vec<(u32, u32, u32)> = Vec::new();
    let mut i: u64 = 0;
    while i < count
        invariant
            d == data@,
            vec3s_of(accessors@, views@, bin@, acc_i as int) == want,
            want == if overruns(count as int, step as int, 12, d.len() as int) {
                Err("vec3 overrun"@)
            } else {
                Ok(Seq::new(count as nat, |k: int| vec3_at(d, k * step)))
            },
            0 <= i <= count,
            forall|k: int| 0 <= k < i ==> !(#[trigger] (k * step) + 12 > d.len()),
            out@ =~= Seq::new(i as nat, |k: int| vec3_at(d, k * step)),
        decreases count - i,
    {
        proof {
            lemma_product_fits(i, step);
        }
        let o: u128 = i as u128 * step as u128;
        if o + 12 > data.len() as u128 {
            proof {
                assert((i * step) + 12 > d.len());
                assert(overruns(count as int, step as int, 12, d.len() as int));
            }
            return Err(Error::Msg("vec3 overrun".to_owned()));
        }
        let ou = o as usize;
        let x = read_le32(data, ou);
        let y = read_le32(data, ou + 4);
        let z = read_le32(data, ou + 8);
        out.push((x, y, z));
        i = i + 1;
    }
    proof {
        assert(!overruns(count as int, step as int, 12, d.len() as int));
    }
    Ok(out)
}

/// The indices accessor `acc_i` holds.
pub fn read_indices(accessors: &[AccessorJson], views: &[ViewJson], bin: &[u8], acc_i: u64) -> (r:
    Result<Vec<u32>, Error>)
    ensures
        match r {
            Ok(v) => indices_of(accessors@, views@, bin@, acc_i as int) == Ok::<Seq<u32>, Seq<char>>(
                v@,
            ),
            Err(e) => indices_of(accessors@, views@, bin@, acc_i as int) == Err::<
                Seq<u32>,
                Seq<char>,
            >(msg_of(e)),
        },
{
    let (start, count, comp, stride) = match acc_view(accessors, views, bin.len(), acc_i) {
        Ok(x) => x,
        Err(e) => return Err(e),
    };
    let w: u64 = if comp == 5121 {
        1
    } else if comp == 5123 {
        2
    } else if comp == 5125 {
        4
    } else {
        let mut m = String::new();
        m.append("bad index componentType ");
        push_decimal(&mut m, comp);
        return Err(Error::Msg(m));
    };
    let data = slice_subrange(bin, start, bin.len());
    let step: u64 = match stride {
        Some(s) => s,
        None => w,
    };
    let ghost d = data@;
    let ghost want: Result<Seq<u32>, Seq<char>> = if overruns(
        count as int,
        step as int,
        w as int,
        d.len() as int,
    ) {
        Err("index overrun"@)
    } else {
        Ok(Seq::new(count as nat, |k: int| index_at(d, k * step, w as int)))
    };
    assert(indices_of(accessors@, views@, bin@, acc_i as int) == want);
    let mut out: Vec<u32> = Vec::new();
    let mut i: u64 = 0;
    while i < count
        invariant
            d == data@,
            indices_of(accessors@, views@, bin@, acc_i as int) == want,
            want == if overruns(count as int, step as int, w as int, d.len() as int) {
                Err("index overrun"@)
            } else {
                Ok(Seq::new(count as nat, |k: int| index_at(d, k * step, w as int)))
            },
            w == index_width(comp),
            1 <= w <= 4,
            0 <= i <= count,
            forall|k: int| 0 <= k < i ==> !(#[trigger] (k * step) + w > d.len()),
            out@ =~= Seq::new(i as nat, |k: int| index_at(d, k * step, w as int)),
        decreases count - i,
    {
        proof {
            lemma_product_fits(i, step);
        }
        let o: u128 = i as u128 * step as u128;
        if o + w as u128 > data.len() as u128 {
            proof {
                assert((i * step) + w > d.len());
                assert(overruns(count as int, step as int, w as int, d.len() as int));
            }
            return Err(Error::Msg("index overrun".to_owned()));
        }
        let ou = o as usize;
        let v: u32 = if w == 1 {
            data[ou] as u32
        } else if w == 2 {
            read_le16(data, ou)
        } else {
            read_le32(data, ou)
        };
        out.push(v);
        i = i + 1;
    }
    proof {
        assert(!overruns(count as int, step as int, w as int, d.len() as int));
    }
    Ok(out)
}

/// The normal of a vertex whose primitive has none: straight up, as bits
/// of `[0.0, 1.0, 0.0]`.
pub open spec fn up_bits() -> (u32, u32, u32) {
    (0, 0x3f80_0000, 0)
}

/// The mesh a glTF document and its binary chunk describe: the first
/// primitive of the first mesh, with its POSITION triples, its NORMAL
/// triples (straight up when it has none) and its indices; each piece the
/// document lacks fails with its own message, in that order, and a mesh
/// without positions fails too.
pub open spec fn mesh_of(doc: GltfDoc, bin: Seq<u8>) -> Result<
    (Seq<(u32, u32, u32)>, Seq<(u32, u32, u32)>, Seq<u32>),
    Seq<char>,
> {
    if !doc.has_meshes {
        Err("no meshes"@)
    } else {
        match doc.primitive {
            None => Err("no primitives"@),
            Some(p) => match p.attributes {
                None => Err("no attributes"@),
                Some(at) => match at.position {
                    None => Err("no POSITION"@),
                    Some(pa) => match p.indices {
                        None => Err("no indices"@),
                        Some(ia) => match doc.accessors {
                            None => Err("no accessors"@),
                            Some(accs) => match doc.views {
                                None => Err("no bufferViews"@),
                                Some(views) => match vec3s_of(accs@, views@, bin, pa as int) {
                                    Err(e) => Err(e),
                                    Ok(pos) => {
                                        let nrm = match at.normal {
                                            Some(na) => vec3s_of(accs@, views@, bin, na as int),
                                            None => Ok(Seq::new(pos.len(), |k: int| up_bits())),
                                        };
                                        match nrm {
                                            Err(e) => Err(e),
                                            Ok(n) => match indices_of(accs@, views@, bin, ia as int) {
                                                Err(e) => Err(e),
                                                Ok(ix) => if pos.len() == 0 {
                                                    Err("empty positions"@)
                                                } else {
                                                    Ok((pos, n, ix))
                                                },
                                            },
                                        }
                                    },
                                },
                            },
                        },
                    },
                },
            },
        }
    }
}

/// Reads the first mesh primitive of a glTF document out of its binary
/// chunk.
pub fn mesh_from_doc(doc: &GltfDoc, bin: &[u8]) -> (r: Result<MeshBits, Error>)
    ensures
        match r {
            Ok(m) => mesh_of(*doc, bin@) == Ok::<
                (Seq<(u32, u32, u32)>, Seq<(u32, u32, u32)>, Seq<u32>),
                Seq<char>,
            >((m.positions@, m.normals@, m.indices@)),
            Err(e) => mesh_of(*doc, bin@) == Err::<
                (Seq<(u32, u32, u32)>, Seq<(u32, u32, u32)>, Seq<u32>),
                Seq<char>,
            >(msg_of(e)),
        },
{
    if !doc.has_meshes {
        return Err(Error::Msg("no meshes".to_owned()));
    }
    let p = match doc.primitive {
        Some(p) => p,
        None => return Err(Error::Msg("no primitives".to_owned())),
    };
    let at = match p.attributes {
        Some(a) => a,
        None => return Err(Error::Msg("no attributes".to_owned())),
    };
    let pa = match at.position {
        Some(x) => x,
        None => return Err(Error::Msg("no POSITION".to_owned())),
    };
    let ia = match p.indices {
        Some(x) => x,
        None => return Err(Error::Msg("no indices".to_owned())),
    };
    let accs = match &doc.accessors {
        Some(a) => a,
        None => return Err(Error::Msg("no accessors".to_owned())),
    };
    let views = match &doc.views {
        Some(v) => v,
        None => return Err(Error::Msg("no bufferViews".to_owned())),
    };
    let positions = match read_f32x3(accs.as_slice(), views.as_slice(), bin, pa) {
        Ok(v) => v,
        Err(e) => return Err(e),
    };
    let normals = match at.normal {
        Some(na) => match read_f32x3(accs.as_slice(), views.as_slice(), bin, na) {
            Ok(v) => v,
            Err(e) => return Err(e),
        },
        None => {
            let mut n: Vec<(u32, u32, u32)> = Vec::new();
            let mut i: usize = 0;
            while i < positions.len()
                invariant
                    0 <= i <= positions@.len(),
                    n@ =~= Seq::new(i as nat, |k: int| up_bits()),
                decreases positions.len() - i,
            {
                n.push((0, 0x3f80_0000, 0));
                i = i + 1;
            }
            n
        },
    };
    let indices = match read_indices(accs.as_slice(), views.as_slice(), bin, ia) {
        Ok(v) => v,
        Err(e) => return Err(e),
    };
    if positions.len() == 0 {
        return Err(Error::Msg("empty positions".to_owned()));
    }
    Ok(MeshBits { positions, normals, indices })
}

} // verus!
