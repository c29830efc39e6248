//! Canonical byte framing of blob and tree objects, and its decoding.
//!
//! Tree entries are kept in the order in which they are given: encoding
//! writes them in that order and decoding returns them in stored order.
use vstd::prelude::*;
use crate::id::ObjectId;
use vstd::slice::{slice_subrange, slice_to_vec};

verus! {

/// The kind of a tree entry.
#[derive(Clone, Copy, Debug, PartialEq, Eq, Structural)]
pub enum Mode {
    RegularFile,
    Directory,
}

/// The two kinds of object.
#[derive(Clone, Copy, Debug, PartialEq, Eq, Structural)]
pub enum Kind {
    Blob,
    Tree,
}

/// The mathematical value of a tree entry: its mode, name and the raw
/// fingerprint of the object it points to.
pub ghost struct EntryView {
    pub mode: Mode,
    pub name: Seq<u8>,
    pub target: Seq<u8>,
}

/// The mathematical value of an object.
pub ghost enum ObjectView {
    Blob(Seq<u8>),
    Tree(Seq<EntryView>),
}

pub open spec fn is_digit(b: u8) -> bool {
    48 <= b <= 57
}

/// The decimal rendering of `n`, most significant digit first, without
/// leading zeros.
pub open spec fn decimal(n: nat) -> Seq<u8>
    decreases n,
{
    if n < 10 {
        seq![(48 + n) as u8]
    } else {
        decimal(n / 10).push((48 + n % 10) as u8)
    }
}

/// The number that a string of decimal digits denotes.
pub open spec fn digits_value(s: Seq<u8>) -> nat
    decreases s.len(),
{
    if s.len() == 0 {
        0
    } else {
        digits_value(s.drop_last()) * 10 + (s.last() - 48) as nat
    }
}

/// A non-empty string of digits with no leading zero (but `"0"` itself).
pub open spec fn canonical_decimal(s: Seq<u8>) -> bool {
    &&& s.len() >= 1
    &&& forall|i: int| 0 <= i < s.len() ==> is_digit(#[trigger] s[i])
    &&& (s.len() == 1 || s[0] != 48)
}

/// `"blob"`
pub open spec fn blob_tag() -> Seq<u8> {
    seq![98u8, 108, 111, 98]
}

/// `"tree"`
pub open spec fn tree_tag() -> Seq<u8> {
    seq![116u8, 114, 101, 101]
}

pub open spec fn kind_tag(k: Kind) -> Seq<u8> {
    match k {
        Kind::Blob => blob_tag(),
        Kind::Tree => tree_tag(),
    }
}

/// `"<tag> <payload length>\0<payload>"`
pub open spec fn frame(tag: Seq<u8>, payload: Seq<u8>) -> Seq<u8> {
    tag + seq![32u8] + decimal(payload.len()) + seq![0u8] + payload
}

/// `"100644"` for a regular file, `"40000"` for a directory.
pub open spec fn mode_bytes(m: Mode) -> Seq<u8> {
    match m {
        Mode::RegularFile => seq![49u8, 48, 48, 54, 52, 52],
        Mode::Directory => seq![52u8, 48, 48, 48, 48],
    }
}

/// A path segment: not empty, with neither a `/` nor a NUL byte.
pub open spec fn valid_name(name: Seq<u8>) -> bool {
    &&& name.len() > 0
    &&& forall|i: int| 0 <= i < name.len() ==> #[trigger] name[i] != 47u8 && name[i] != 0u8
}

pub open spec fn valid_entry(e: EntryView) -> bool {
    valid_name(e.name) && e.target.len() == 20
}

pub open spec fn valid_entries(es: Seq<EntryView>) -> bool {
    forall|i: int| 0 <= i < es.len() ==> valid_entry(#[trigger] es[i])
}

/// Some entry of `es` is named `name`.
pub open spec fn has_name(es: Seq<EntryView>, name: Seq<u8>) -> bool {
    exists|i: int| 0 <= i < es.len() && (#[trigger] es[i]).name == name
}

/// Valid entries with pairwise distinct names.
pub open spec fn well_formed_entries(es: Seq<EntryView>) -> bool {
    &&& valid_entries(es)
    &&& forall|i: int, j: int| 0 <= i < j < es.len() ==> (#[trigger] es[i]).name != (#[trigger] es[j]).name
}

/// `"<mode> <name>\0<20 raw fingerprint bytes>"`
pub open spec fn entry_bytes(e: EntryView) -> Seq<u8> {
    mode_bytes(e.mode) + seq![32u8] + e.name + seq![0u8] + e.target
}

/// The entries' encodings, concatenated in order.
pub open spec fn entries_bytes(es: Seq<EntryView>) -> Seq<u8>
    decreases es.len(),
{
    if es.len() == 0 {
        Seq::empty()
    } else {
        entries_bytes(es.drop_last()) + entry_bytes(es.last())
    }
}

pub open spec fn encode_blob_spec(payload: Seq<u8>) -> Seq<u8> {
    frame(blob_tag(), payload)
}

pub open spec fn encode_tree_spec(es: Seq<EntryView>) -> Seq<u8> {
    frame(tree_tag(), entries_bytes(es))
}

pub open spec fn encode_spec(o: ObjectView) -> Seq<u8> {
    match o {
        ObjectView::Blob(p) => encode_blob_spec(p),
        ObjectView::Tree(es) => encode_tree_spec(es),
    }
}

/// `i` is the position of the first occurrence of `b` in `s`.
pub open spec fn is_first(s: Seq<u8>, b: u8, i: int) -> bool {
    &&& 0 <= i < s.len()
    &&& s[i] == b
    &&& forall|j: int| 0 <= j < i ==> #[trigger] s[j] != b
}

/// The position of the first occurrence of `b` in `s`, if any.
pub open spec fn first_index(s: Seq<u8>, b: u8) -> Option<int> {
    if exists|i: int| is_first(s, b, i) {
        Some(choose|i: int| is_first(s, b, i))
    } else {
        None
    }
}

/// Reads an object header `"<tag> <digits>"` into its kind and declared length.
pub open spec fn parse_header(h: Seq<u8>) -> Option<(Kind, nat)> {
    if h.len() > 5 && h[4] == 32u8 && canonical_decimal(h.skip(5)) {
        if h.take(4) == blob_tag() {
            Some((Kind::Blob, digits_value(h.skip(5))))
        } else if h.take(4) == tree_tag() {
            Some((Kind::Tree, digits_value(h.skip(5))))
        } else {
            None
        }
    } else {
        None
    }
}

pub open spec fn mode_of(s: Seq<u8>) -> Option<Mode> {
    if s == mode_bytes(Mode::RegularFile) {
        Some(Mode::RegularFile)
    } else if s == mode_bytes(Mode::Directory) {
        Some(Mode::Directory)
    } else {
        None
    }
}

/// Reads the first entry of a tree payload, with the number of bytes it takes.
pub open spec fn parse_entry(p: Seq<u8>) -> Option<(EntryView, int)> {
    match first_index(p, 0u8) {
        None => None,
        Some(k) => {
            let h = p.take(k);
            match first_index(h, 32u8) {
                None => None,
                Some(sp) => match mode_of(h.take(sp)) {
                    None => None,
                    Some(m) => {
                        let name = h.skip(sp + 1);
                        if valid_name(name) && k + 21 <= p.len() {
                            Some((EntryView { mode: m, name, target: p.subrange(k + 1, k + 21) }, k + 21))
                        } else {
                            None
                        }
                    },
                },
            }
        },
    }
}

/// Reads a whole tree payload into its entries.
pub open spec fn parse_entries(p: Seq<u8>) -> Option<Seq<EntryView>>
    decreases p.len(),
{
    if p.len() == 0 {
        Some(Seq::empty())
    } else {
        match parse_entry(p) {
            None => None,
            Some((e, used)) => if 0 < used <= p.len() {
                match parse_entries(p.skip(used)) {
                    None => None,
                    Some(rest) => Some(seq![e] + rest),
                }
            } else {
                None
            },
        }
    }
}

/// What a framed object decodes to. A header that is well formed but
/// declares another length than the payload has is a `LengthMismatch`; any
/// other fault of the framing is `Malformed`.
pub open spec fn decode_spec(b: Seq<u8>) -> Result<ObjectView, CodecError> {
    match first_index(b, 0u8) {
        None => Err(CodecError::Malformed),
        Some(k) => match parse_header(b.take(k)) {
            None => Err(CodecError::Malformed),
            Some((kind, n)) => {
                let p = b.skip(k + 1);
                if n != p.len() {
                    Err(CodecError::LengthMismatch)
                } else {
                    match kind {
                        Kind::Blob => Ok(ObjectView::Blob(p)),
                        Kind::Tree => match parse_entries(p) {
                            None => Err(CodecError::Malformed),
                            Some(es) => Ok(ObjectView::Tree(es)),
                        },
                    }
                }
            },
        },
    }
}


/// One entry of a tree.
#[derive(Debug)]
pub struct Entry {
    pub mode: Mode,
    pub name: Vec<u8>,
    pub target: ObjectId,
}

impl View for Entry {
    type V = EntryView;

    open spec fn view(&self) -> EntryView {
        EntryView { mode: self.mode, name: self.name@, target: self.target@ }
    }
}

/// A decoded object.
#[derive(Debug)]
pub enum Object {
    Blob(Vec<u8>),
    Tree(Vec<Entry>),
}

pub open spec fn entries_view(es: Seq<Entry>) -> Seq<EntryView> {
    es.map_values(|e: Entry| e@)
}

impl View for Object {
    type V = ObjectView;

    open spec fn view(&self) -> ObjectView {
        match self {
            Object::Blob(p) => ObjectView::Blob(p@),
            Object::Tree(es) => ObjectView::Tree(entries_view(es@)),
        }
    }
}

/// Why a framed object could not be decoded.
#[derive(Clone, Copy, Debug, PartialEq, Eq, Structural)]
pub enum CodecError {
    /// The header, NUL or entry rules are broken.
    Malformed,
    /// The header declares another length than the payload has.
    LengthMismatch,
}

fn append(out: &mut Vec<u8>, src: &[u8])
    ensures
        final(out)@ == old(out)@ + src@,
{
    let mut i: usize = 0;
    while i < src.len()
        invariant
            i <= src@.len(),
            out@ == old(out)@ + src@.take(i as int),
        decreases src@.len() - i,
    {
        out.push(src[i]);
        i = i + 1;
        assert(out@ =~= old(out)@ + src@.take(i as int));
    }
    assert(src@.take(i as int) =~= src@);
}

fn push_decimal(out: &mut Vec<u8>, n: usize)
    ensures
        final(out)@ == old(out)@ + decimal(n as nat),
    decreases n,
{
    if n < 10 {
        out.push(48u8 + n as u8);
        assert(out@ =~= old(out)@ + decimal(n as nat));
    } else {
        push_decimal(out, n / 10);
        out.push(48u8 + (n % 10) as u8);
        assert(out@ =~= old(out)@ + decimal(n as nat));
    }
}

fn push_tag(out: &mut Vec<u8>, kind: Kind)
    ensures
        final(out)@ == old(out)@ + kind_tag(kind),
{
    match kind {
        Kind::Blob => {
            out.push(98u8);
            out.push(108u8);
            out.push(111u8);
            out.push(98u8);
        },
        Kind::Tree => {
            out.push(116u8);
            out.push(114u8);
            out.push(101u8);
            out.push(101u8);
        },
    }
    assert(out@ =~= old(out)@ + kind_tag(kind));
}

fn push_mode(out: &mut Vec<u8>, mode: Mode)
    ensures
        final(out)@ == old(out)@ + mode_bytes(mode),
{
    match mode {
        Mode::RegularFile => {
            out.push(49u8);
            out.push(48u8);
            out.push(48u8);
            out.push(54u8);
            out.push(52u8);
            out.push(52u8);
        },
        Mode::Directory => {
            out.push(52u8);
            out.push(48u8);
            out.push(48u8);
            out.push(48u8);
            out.push(48u8);
        },
    }
    assert(out@ =~= old(out)@ + mode_bytes(mode));
}

fn frame_exec(kind: Kind, payload: &[u8]) -> (r: Vec<u8>)
    ensures
        r@ == frame(kind_tag(kind), payload@),
{
    let mut out: Vec<u8> = Vec::new();
    push_tag(&mut out, kind);
    out.push(32u8);
    push_decimal(&mut out, payload.len());
    out.push(0u8);
    append(&mut out, payload);
    assert(out@ =~= frame(kind_tag(kind), payload@));
    out
}

/// The mode as written in a tree entry: `"100644"` or `"40000"`.
pub fn mode_string(mode: Mode) -> (r: Vec<u8>)
    ensures
        r@ == mode_bytes(mode),
{
    let mut out: Vec<u8> = Vec::new();
    push_mode(&mut out, mode);
    assert(out@ =~= mode_bytes(mode));
    out
}

/// The canonical framing of a blob: `"blob <length>\0<payload>"`.
pub fn encode_blob(payload: &[u8]) -> (r: Vec<u8>)
    ensures
        r@ == encode_blob_spec(payload@),
{
    frame_exec(Kind::Blob, payload)
}

/// The encoding of one entry: `"<mode> <name>\0<raw target>"`.
fn push_entry(out: &mut Vec<u8>, e: &Entry)
    ensures
        final(out)@ == old(out)@ + entry_bytes(e@),
{
    push_mode(out, e.mode);
    out.push(32u8);
    append(out, e.name.as_slice());
    out.push(0u8);
    append(out, e.target.as_bytes());
    assert(out@ =~= old(out)@ + entry_bytes(e@));
}

/// The payload of a tree: its entries' encodings in the order given.
pub fn encode_entries(entries: &Vec<Entry>) -> (r: Vec<u8>)
    ensures
        r@ == entries_bytes(entries_view(entries@)),
{
    let ghost es = entries_view(entries@);
    let mut out: Vec<u8> = Vec::new();
    let mut i: usize = 0;
    while i < entries.len()
        invariant
            i <= entries@.len(),
            es == entries_view(entries@),
            out@ == entries_bytes(es.take(i as int)),
        decreases entries@.len() - i,
    {
        push_entry(&mut out, &entries[i]);
        proof {
            let t = es.take(i + 1);
            assert(t.drop_last() =~= es.take(i as int));
            assert(t.last() == entries@[i as int]@);
        }
        i = i + 1;
    }
    assert(es.take(i as int) =~= es);
    out
}

/// The canonical framing of a tree: `"tree <length>\0"` and its entries in
/// the order given.
pub fn encode_tree(entries: &Vec<Entry>) -> (r: Vec<u8>)
    ensures
        r@ == encode_tree_spec(entries_view(entries@)),
{
    let payload = encode_entries(entries);
    frame_exec(Kind::Tree, payload.as_slice())
}


proof fn lemma_first_index_is(s: Seq<u8>, b: u8, i: int)
    requires
        is_first(s, b, i),
    ensures
        first_index(s, b) == Some(i),
{
    let j = choose|j: int| is_first(s, b, j);
    assert(is_first(s, b, j));
    if j < i {
        assert(s[j] != b);
    } else if i < j {
        assert(s[i] != b);
    }
}

/// The first position of `x` in `b[start..end]`.
fn find_byte(b: &[u8], start: usize, end: usize, x: u8) -> (r: Option<usize>)
    requires
        start <= end <= b@.len(),
    ensures
        match r {
            Some(i) => start <= i < end && first_index(b@.subrange(start as int, end as int), x)
                == Some(i - start),
            None => first_index(b@.subrange(start as int, end as int), x) is None,
        },
{
    let ghost s = b@.subrange(start as int, end as int);
    let mut i: usize = start;
    while i < end
        invariant
            start <= i <= end <= b@.len(),
            s == b@.subrange(start as int, end as int),
            forall|j: int| 0 <= j < i - start ==> #[trigger] s[j] != x,
        decreases end - i,
    {
        if b[i] == x {
            proof {
                lemma_first_index_is(s, x, i - start);
            }
            return Some(i);
        }
        i = i + 1;
    }
    assert(!exists|j: int| is_first(s, x, j)) by {
        if exists|j: int| is_first(s, x, j) {
            let j = choose|j: int| is_first(s, x, j);
            assert(s[j] != x);
        }
    };
    None
}

/// Reads `b[start..end]` as a decimal number: `None` where it is not
/// canonical, else whether it denotes `target`.
fn decimal_check(b: &[u8], start: usize, end: usize, target: usize) -> (r: Option<bool>)
    requires
        start <= end <= b@.len(),
    ensures
        r is None <==> !canonical_decimal(b@.subrange(start as int, end as int)),
        r is Some ==> r->0 == (digits_value(b@.subrange(start as int, end as int)) == target),
{
    let ghost s = b@.subrange(start as int, end as int);
    if start == end {
        return None;
    }
    if b[start] == 48u8 && end - start > 1 {
        assert(s[0] == 48u8);
        return None;
    }
    let mut acc: u128 = 0;
    let mut big = false;
    let mut i: usize = start;
    while i < end
        invariant
            start <= i <= end <= b@.len(),
            s == b@.subrange(start as int, end as int),
            s.len() == 1 || s[0] != 48u8,
            !big ==> acc == digits_value(s.take(i - start)) && acc <= target,
            big ==> digits_value(s.take(i - start)) > target,
            forall|j: int| 0 <= j < i - start ==> is_digit(#[trigger] s[j]),
        decreases end - i,
    {
        let c = b[i];
        if c < 48u8 || c > 57u8 {
            assert(!is_digit(s[i - start]));
            return None;
        }
        proof {
            let t = s.take(i + 1 - start);
            assert(t.drop_last() =~= s.take(i - start));
            assert(t.last() == c);
        }
        if !big {
            let next: u128 = acc * 10 + (c - 48u8) as u128;
            if next > target as u128 {
                big = true;
            } else {
                acc = next;
            }
        }
        i = i + 1;
    }
    assert(s.take(i - start) =~= s);
    if big {
        Some(false)
    } else {
        Some(acc == target as u128)
    }
}

fn mode_exec(b: &[u8], start: usize, end: usize) -> (r: Option<Mode>)
    requires
        start <= end <= b@.len(),
    ensures
        r == mode_of(b@.subrange(start as int, end as int)),
{
    let ghost s = b@.subrange(start as int, end as int);
    if end - start == 6 && b[start] == 49u8 && b[start + 1] == 48u8 && b[start + 2] == 48u8
        && b[start + 3] == 54u8 && b[start + 4] == 52u8 && b[start + 5] == 52u8 {
        assert(s =~= mode_bytes(Mode::RegularFile));
        Some(Mode::RegularFile)
    } else if end - start == 5 && b[start] == 52u8 && b[start + 1] == 48u8 && b[start + 2] == 48u8
        && b[start + 3] == 48u8 && b[start + 4] == 48u8 {
        assert(s =~= mode_bytes(Mode::Directory));
        assert(mode_bytes(Mode::RegularFile).len() == 6);
        Some(Mode::Directory)
    } else {
        proof {
            assert(s.len() == end - start);
            assert(s.len() > 0 ==> s[0] == b@[start as int]);
            if s == mode_bytes(Mode::RegularFile) {
                assert(mode_bytes(Mode::RegularFile).len() == 6);
                assert(s[0] == 49u8 && s[1] == 48u8 && s[2] == 48u8 && s[3] == 54u8 && s[4] == 52u8
                    && s[5] == 52u8);
            }
            if s == mode_bytes(Mode::Directory) {
                assert(mode_bytes(Mode::Directory).len() == 5);
                assert(s[0] == 52u8 && s[1] == 48u8 && s[2] == 48u8 && s[3] == 48u8 && s[4] == 48u8);
            }
        }
        None
    }
}

/// Whether `b[start..end]` is a valid entry name.
pub(crate) fn name_ok(b: &[u8], start: usize, end: usize) -> (r: bool)
    requires
        start <= end <= b@.len(),
    ensures
        r == valid_name(b@.subrange(start as int, end as int)),
{
    let ghost s = b@.subrange(start as int, end as int);
    if start == end {
        return false;
    }
    let mut i: usize = start;
    while i < end
        invariant
            start <= i <= end <= b@.len(),
            s == b@.subrange(start as int, end as int),
            forall|j: int| 0 <= j < i - start ==> #[trigger] s[j] != 47u8 && s[j] != 0u8,
        decreases end - i,
    {
        if b[i] == 47u8 || b[i] == 0u8 {
            assert(s[i - start] == 47u8 || s[i - start] == 0u8);
            return false;
        }
        i = i + 1;
    }
    true
}

/// Whether two byte strings are equal.
pub fn bytes_equal(a: &[u8], b: &[u8]) -> (r: bool)
    ensures
        r == (a@ == b@),
{
    if a.len() != b.len() {
        return false;
    }
    let mut i: usize = 0;
    while i < a.len()
        invariant
            a@.len() == b@.len(),
            i <= a@.len(),
            forall|j: int| 0 <= j < i ==> a@[j] == b@[j],
        decreases a@.len() - i,
    {
        if a[i] != b[i] {
            assert(a@[i as int] != b@[i as int]);
            return false;
        }
        i = i + 1;
    }
    assert(a@ =~= b@);
    true
}

fn copy_range(b: &[u8], start: usize, end: usize) -> (r: Vec<u8>)
    requires
        start <= end <= b@.len(),
    ensures
        r@ == b@.subrange(start as int, end as int),
{
    slice_to_vec(slice_subrange(b, start, end))
}

/// Reads the entry that starts at `b[start]` within `b[start..end]`, and
/// where the next one starts.
fn parse_entry_exec(b: &[u8], start: usize, end: usize) -> (r: Option<(Entry, usize)>)
    requires
        start <= end <= b@.len(),
    ensures
        match parse_entry(b@.subrange(start as int, end as int)) {
            None => r is None,
            Some((e, used)) => r matches Some((x, next)) && x@ == e && next == start + used
                && next <= end,
        },
{
    let ghost p = b@.subrange(start as int, end as int);
    let k = match find_byte(b, start, end, 0u8) {
        None => return None,
        Some(k) => k,
    };
    let ghost h = p.take(k - start);
    assert(h =~= b@.subrange(start as int, k as int));
    let sp = match find_byte(b, start, k, 32u8) {
        None => return None,
        Some(sp) => sp,
    };
    assert(h.take(sp - start) =~= b@.subrange(start as int, sp as int));
    let mode = match mode_exec(b, start, sp) {
        None => return None,
        Some(m) => m,
    };
    assert(h.skip(sp - start + 1) =~= b@.subrange(sp + 1, k as int));
    if !name_ok(b, sp + 1, k) {
        return None;
    }
    if end - k < 21 {
        return None;
    }
    let name = copy_range(b, sp + 1, k);
    let raw = copy_range(b, k + 1, k + 21);
    assert(p.subrange(k - start + 1, k - start + 21) =~= raw@);
    let target = match ObjectId::from_raw(raw) {
        Some(t) => t,
        None => return None,
    };
    Some((Entry { mode, name, target }, k + 21))
}

/// Reads a whole tree payload `b[start..end]` into its entries.
fn parse_entries_exec(b: &[u8], start: usize, end: usize) -> (r: Option<Vec<Entry>>)
    requires
        start <= end <= b@.len(),
    ensures
        match parse_entries(b@.subrange(start as int, end as int)) {
            None => r is None,
            Some(es) => r matches Some(v) && entries_view(v@) == es,
        },
{
    let ghost whole = b@.subrange(start as int, end as int);
    let mut out: Vec<Entry> = Vec::new();
    let mut pos: usize = start;
    assert(parse_entries(whole) == prepend(entries_view(out@), parse_entries(whole))) by {
        match parse_entries(whole) {
            None => {},
            Some(r) => {
                assert(entries_view(out@) + r =~= r);
            },
        }
    };
    while pos < end
        invariant
            start <= pos <= end <= b@.len(),
            whole == b@.subrange(start as int, end as int),
            parse_entries(whole) == prepend(
                entries_view(out@),
                parse_entries(b@.subrange(pos as int, end as int)),
            ),
        decreases end - pos,
    {
        let ghost p = b@.subrange(pos as int, end as int);
        let ghost old_out = entries_view(out@);
        match parse_entry_exec(b, pos, end) {
            None => {
                return None;
            },
            Some((e, next)) => {
                assert(p.skip(next - pos) =~= b@.subrange(next as int, end as int));
                out.push(e);
                proof {
                    assert(entries_view(out@) =~= old_out.push(e@));
                    match parse_entries(b@.subrange(next as int, end as int)) {
                        None => {},
                        Some(rest) => {
                            assert(old_out + (seq![e@] + rest) =~= old_out.push(e@) + rest);
                        },
                    }
                }
                pos = next;
            },
        }
    }
    proof {
        assert(b@.subrange(pos as int, end as int) =~= Seq::<u8>::empty());
        assert(entries_view(out@) + Seq::<EntryView>::empty() =~= entries_view(out@));
    }
    Some(out)
}

/// `done` followed by what `rest` holds, if anything.
pub open spec fn prepend(done: Seq<EntryView>, rest: Option<Seq<EntryView>>) -> Option<Seq<EntryView>> {
    match rest {
        None => None,
        Some(r) => Some(done + r),
    }
}

/// Decodes a framed object. Fails where no NUL ends the header, where the
/// header is not `"blob <n>"` or `"tree <n>"` with `n` the payload's length
/// in canonical decimal, or where a tree entry is malformed or truncated.
pub fn decode(b: &[u8]) -> (r: Result<Object, CodecError>)
    ensures
        match decode_spec(b@) {
            Err(e) => r == Err::<Object, CodecError>(e),
            Ok(o) => r matches Ok(x) && x@ == o,
        },
{
    let k = match find_byte(b, 0, b.len(), 0u8) {
        None => {
            assert(b@.subrange(0, b@.len() as int) =~= b@);
            return Err(CodecError::Malformed);
        },
        Some(k) => k,
    };
    assert(b@.subrange(0, b@.len() as int) =~= b@);
    let ghost h = b@.take(k as int);
    assert(h =~= b@.subrange(0, k as int));
    let payload_len = b.len() - k - 1;
    if k <= 5 || b[4] != 32u8 {
        return Err(CodecError::Malformed);
    }
    let kind = if b[0] == 98u8 && b[1] == 108u8 && b[2] == 111u8 && b[3] == 98u8 {
        assert(h.take(4) =~= blob_tag());
        Kind::Blob
    } else if b[0] == 116u8 && b[1] == 114u8 && b[2] == 101u8 && b[3] == 101u8 {
        assert(h.take(4) =~= tree_tag());
        Kind::Tree
    } else {
        proof {
            let t = h.take(4);
            if t == blob_tag() {
                assert(t[0] == 98u8 && t[1] == 108u8 && t[2] == 111u8 && t[3] == 98u8);
            }
            if t == tree_tag() {
                assert(t[0] == 116u8 && t[1] == 114u8 && t[2] == 101u8 && t[3] == 101u8);
            }
        }
        return Err(CodecError::Malformed);
    };
    assert(h.skip(5) =~= b@.subrange(5, k as int));
    match decimal_check(b, 5, k, payload_len) {
        None => return Err(CodecError::Malformed),
        Some(false) => return Err(CodecError::LengthMismatch),
        Some(true) => {},
    }
    assert(b@.skip(k + 1) =~= b@.subrange(k + 1, b@.len() as int));
    match kind {
        Kind::Blob => Ok(Object::Blob(copy_range(b, k + 1, b.len()))),
        Kind::Tree => match parse_entries_exec(b, k + 1, b.len()) {
            None => Err(CodecError::Malformed),
            Some(es) => Ok(Object::Tree(es)),
        },
    }
}


proof fn lemma_decimal(n: nat)
    ensures
        canonical_decimal(decimal(n)),
        digits_value(decimal(n)) == n,
        n > 0 ==> decimal(n)[0] != 48u8,
    decreases n,
{
    let s = decimal(n);
    if n < 10 {
        assert(s.drop_last() =~= Seq::<u8>::empty());
        assert(s.last() == 48 + n);
        assert(digits_value(s.drop_last()) == 0);
    } else {
        lemma_decimal(n / 10);
        assert(s.drop_last() =~= decimal(n / 10));
        assert(s.last() == 48 + n % 10);
        assert(n == (n / 10) * 10 + n % 10);
        assert(s[0] == decimal(n / 10)[0]);
    }
}

proof fn lemma_first_index_concat(a: Seq<u8>, x: u8, c: Seq<u8>)
    requires
        forall|i: int| 0 <= i < a.len() ==> #[trigger] a[i] != x,
    ensures
        first_index(a + seq![x] + c, x) == Some(a.len() as int),
{
    let s = a + seq![x] + c;
    assert forall|j: int| 0 <= j < a.len() implies #[trigger] s[j] != x by {
        assert(s[j] == a[j]);
    };
    lemma_first_index_is(s, x, a.len() as int);
}

/// Splits a framing at its NUL: the header `"<tag> <digits>"` reads back as
/// the kind and the payload's length.
proof fn lemma_frame_header(kind: Kind, p: Seq<u8>)
    ensures
        ({
            let h = kind_tag(kind) + seq![32u8] + decimal(p.len());
            &&& frame(kind_tag(kind), p) == h + seq![0u8] + p
            &&& first_index(frame(kind_tag(kind), p), 0u8) == Some(h.len() as int)
            &&& parse_header(h) == Some((kind, p.len()))
        }),
{
    let t = kind_tag(kind);
    let d = decimal(p.len());
    let h = t + seq![32u8] + d;
    lemma_decimal(p.len());
    assert(frame(t, p) =~= h + seq![0u8] + p);
    assert forall|i: int| 0 <= i < h.len() implies #[trigger] h[i] != 0u8 by {
        if i >= 5 {
            assert(h[i] == d[i - 5]);
            assert(is_digit(d[i - 5]));
        }
    };
    lemma_first_index_concat(h, 0u8, p);
    assert(h.skip(5) =~= d);
    assert(h.take(4) =~= t);
    assert(blob_tag() != tree_tag()) by {
        assert(blob_tag()[0] != tree_tag()[0]);
    };
}

proof fn lemma_entries_front(es: Seq<EntryView>)
    requires
        es.len() > 0,
    ensures
        entries_bytes(es) == entry_bytes(es[0]) + entries_bytes(es.drop_first()),
    decreases es.len(),
{
    if es.len() == 1 {
        assert(es.drop_last() =~= Seq::<EntryView>::empty());
        assert(es.drop_first() =~= Seq::<EntryView>::empty());
        assert(entries_bytes(es) =~= entry_bytes(es[0]) + entries_bytes(es.drop_first()));
    } else {
        let d = es.drop_last();
        lemma_entries_front(d);
        assert(d.drop_first() =~= es.drop_first().drop_last());
        assert(es.drop_first().last() == es.last());
        assert(entries_bytes(es) =~= entry_bytes(es[0]) + entries_bytes(es.drop_first()));
    }
}

proof fn lemma_parse_entry(e: EntryView, rest: Seq<u8>)
    requires
        valid_entry(e),
    ensures
        parse_entry(entry_bytes(e) + rest) == Some((e, entry_bytes(e).len() as int)),
{
    let m = mode_bytes(e.mode);
    let h = m + seq![32u8] + e.name;
    let p = entry_bytes(e) + rest;
    assert(p =~= h + seq![0u8] + (e.target + rest));
    assert forall|i: int| 0 <= i < h.len() implies #[trigger] h[i] != 0u8 by {
        if i > m.len() {
            assert(h[i] == e.name[i - m.len() - 1]);
        }
    };
    lemma_first_index_concat(h, 0u8, e.target + rest);
    let k = h.len() as int;
    assert(p.take(k) =~= h);
    assert(h =~= m + seq![32u8] + e.name);
    assert(forall|i: int| 0 <= i < m.len() ==> #[trigger] m[i] != 32u8);
    lemma_first_index_concat(m, 32u8, e.name);
    assert(h.take(m.len() as int) =~= m);
    assert(h.skip(m.len() as int + 1) =~= e.name);
    assert(mode_bytes(Mode::RegularFile) != mode_bytes(Mode::Directory)) by {
        assert(mode_bytes(Mode::RegularFile).len() != mode_bytes(Mode::Directory).len());
    };
    assert(p.subrange(k + 1, k + 21) =~= e.target);
}

proof fn lemma_parse_entries(es: Seq<EntryView>)
    requires
        valid_entries(es),
    ensures
        parse_entries(entries_bytes(es)) == Some(es),
    decreases es.len(),
{
    if es.len() == 0 {
    } else {
        let e = es[0];
        let tail = es.drop_first();
        lemma_entries_front(es);
        assert(valid_entry(es[0]));
        assert forall|i: int| 0 <= i < tail.len() implies valid_entry(#[trigger] tail[i]) by {
            assert(tail[i] == es[i + 1]);
        };
        lemma_parse_entries(tail);
        let b = entries_bytes(es);
        lemma_parse_entry(e, entries_bytes(tail));
        let used = entry_bytes(e).len() as int;
        assert(b.skip(used) =~= entries_bytes(tail));
        assert(seq![e] + tail =~= es);
    }
}

/// A blob's framing decodes to that blob.
pub proof fn lemma_blob_round_trip(p: Seq<u8>)
    ensures
        decode_spec(encode_blob_spec(p)) == Ok::<ObjectView, CodecError>(ObjectView::Blob(p)),
{
    let h = blob_tag() + seq![32u8] + decimal(p.len());
    lemma_frame_header(Kind::Blob, p);
    let b = encode_blob_spec(p);
    assert(b.take(h.len() as int) =~= h);
    assert(b.skip(h.len() as int + 1) =~= p);
}

/// A tree's framing decodes to the same entries in the same order.
pub proof fn lemma_tree_round_trip(es: Seq<EntryView>)
    requires
        valid_entries(es),
    ensures
        decode_spec(encode_tree_spec(es)) == Ok::<ObjectView, CodecError>(ObjectView::Tree(es)),
{
    let p = entries_bytes(es);
    let h = tree_tag() + seq![32u8] + decimal(p.len());
    lemma_frame_header(Kind::Tree, p);
    let b = encode_tree_spec(es);
    assert(b.take(h.len() as int) =~= h);
    assert(b.skip(h.len() as int + 1) =~= p);
    lemma_parse_entries(es);
}

} // verus!
