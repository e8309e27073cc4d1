//! Event files: a header line with the length and the checksum of the payload,
//! then the payload. Whatever does not fit is reported as damage.
//!
//! ```text
//! VDE1 <payload length> <CRC-32 of the payload, 8 hexadecimal digits>\n
//! <payload>
//! ```
use vstd::prelude::*;

use crate::crc;
use crate::crc::crc32;
use crate::fault::join;
use crate::frame;
use crate::frame::push_ascii;
use crate::names;
use crate::names::{numbered_name, read_number, starts_with};
use crate::numeral;
use crate::numeral::{decimal, fixed_hex, read_decimal_field, read_hex_field};
use crate::text;
use crate::text::{chars_of, split_at, string_of, text_eq};

verus! {

/// Why a data directory cannot be opened: another instance holds it, its
/// contents are damaged, or it cannot be accessed.
#[derive(Debug)]
pub enum OpenError {
    Locked { root: String },
    Corrupt(String),
    Io(String),
}

/// Why a data directory cannot be opened, as a mathematical value.
pub enum Trouble {
    Locked(Seq<char>),
    Corrupt(Seq<char>),
    Io(Seq<char>),
}

impl View for OpenError {
    type V = Trouble;

    open spec fn view(&self) -> Trouble {
        match self {
            OpenError::Locked { root } => Trouble::Locked(root@),
            OpenError::Corrupt(m) => Trouble::Corrupt(m@),
            OpenError::Io(m) => Trouble::Io(m@),
        }
    }
}

/// What is told of a trouble.
pub open spec fn trouble_text(t: Trouble) -> Seq<char> {
    match t {
        Trouble::Locked(root) => "持久化目录 "@ + root
            + " 已被另一个运行中的服务实例占用；多个进程不能共用同一持久化目录"@,
        Trouble::Corrupt(m) => "持久化数据损坏或无法解析，拒绝启动: "@ + m,
        Trouble::Io(m) => "无法访问持久化目录: "@ + m,
    }
}

impl OpenError {
    /// What is told of the error.
    pub fn message(&self) -> (r: String)
        ensures
            r@ == trouble_text(self@),
    {
        match self {
            OpenError::Locked { root } => join(
                join("持久化目录 ", root.as_str()).as_str(),
                " 已被另一个运行中的服务实例占用；多个进程不能共用同一持久化目录",
            ),
            OpenError::Corrupt(m) => join(
                "持久化数据损坏或无法解析，拒绝启动: ",
                m.as_str(),
            ),
            OpenError::Io(m) => join("无法访问持久化目录: ", m.as_str()),
        }
    }
}

/// An operation on files that failed.
pub fn io_err(context: &str, cause: &str) -> (r: OpenError)
    ensures
        r@ == Trouble::Io(context@ + ": "@ + cause@),
{
    OpenError::Io(join(join(context, ": ").as_str(), cause))
}

/// Damage at a place.
pub fn corrupt(place: &str, what: &str) -> (r: OpenError)
    ensures
        r@ == Trouble::Corrupt(place@ + what@),
{
    OpenError::Corrupt(join(place, what))
}

/// A lock that could not be taken: the system says that it would have to wait
/// where another instance holds it.
pub fn lock_failure(root: &str, path: &str, code: Option<i32>, cause: &str) -> (r: OpenError)
    ensures
        r@ == (if code == Some(35i32) || code == Some(11i32) {
            Trouble::Locked(root@)
        } else {
            Trouble::Io("对 "@ + path@ + " 加锁失败: "@ + cause@)
        }),
{
    let waits = match code {
        Some(c) => c == 35 || c == 11,
        None => false,
    };
    if waits {
        OpenError::Locked { root: root.to_owned() }
    } else {
        OpenError::Io(
            join(join(join("对 ", path).as_str(), " 加锁失败: ").as_str(), cause),
        )
    }
}

/// The number of an event file, by its name.
pub open spec fn event_number(name: Seq<char>) -> Option<nat> {
    names::number_in(name, ".json"@)
}

/// Reads the number of an event file from its name.
pub fn parse_numbered(name: &str) -> (r: Option<u64>)
    ensures
        match r {
            Some(n) => event_number(name@) == Some(n as nat),
            None => event_number(name@) is None,
        },
{
    read_number(name, ".json")
}

/// Writes the name of the event file with a number.
pub fn event_name(n: u64) -> (r: String)
    ensures
        r@ == names::numbered(n as nat, ".json"@),
        event_number(r@) == Some(n as nat),
{
    proof {
        names::law_number_round_trip(n, ".json"@);
    }
    numbered_name(n, ".json")
}

/// Whether a file is left over from a write that was never committed.
pub open spec fn is_leftover(name: Seq<char>) -> bool {
    names::begins_with(name, ".tmp."@)
}

/// Whether a file is left over from a write that was never committed.
pub fn is_tmp(name: &str) -> (r: bool)
    ensures
        r == is_leftover(name@),
{
    starts_with(name, ".tmp.")
}

/// The name under which an event is written before it is committed.
pub open spec fn temp_file(process: nat, counter: nat) -> Seq<char> {
    ".tmp."@ + numeral::dec_text(process) + "."@ + numeral::dec_text(counter)
}

/// Writes the name under which an event is written before it is committed.
pub fn temp_name(process: u32, counter: u64) -> (r: String)
    ensures
        r@ == temp_file(process as nat, counter as nat),
{
    let name = join(".tmp.", decimal(process as u64).as_str());
    join(join(name.as_str(), ".").as_str(), decimal(counter).as_str())
}

/// What an uncommitted write leaves behind is recognised as such, and never
/// taken for an event.
pub proof fn law_temp_never_an_event(process: u32, counter: u64)
    ensures
        is_leftover(temp_file(process as nat, counter as nat)),
        event_number(temp_file(process as nat, counter as nat)) is None,
{
    reveal_strlit(".tmp.");
    reveal_strlit(".");
    reveal_strlit(".json");
    let name = temp_file(process as nat, counter as nat);
    assert(name.take(5) =~= ".tmp."@);
    if name.len() >= 20 {
        assert(name.take(20)[0] == '.');
        assert(!numeral::is_digit(name.take(20)[0]));
    }
}

/// The numbers of event files, or the damage that a strange name is.
pub open spec fn numbers_in(dir: Seq<char>, files: Seq<String>) -> Result<Seq<nat>, Trouble>
    decreases files.len(),
{
    if files.len() == 0 {
        Ok(Seq::empty())
    } else {
        match numbers_in(dir, files.drop_last()) {
            Err(e) => Err(e),
            Ok(v) => match event_number(files.last()@) {
                Some(n) => Ok(v.push(n)),
                None => Err(
                    Trouble::Corrupt(
                        "目录 "@ + dir + " 中存在无法识别的数据文件 "@ + files.last()@,
                    ),
                ),
            },
        }
    }
}

proof fn lemma_strange_name_stays(dir: Seq<char>, files: Seq<String>, n: int)
    requires
        0 <= n <= files.len(),
        numbers_in(dir, files.take(n)) is Err,
    ensures
        numbers_in(dir, files) == numbers_in(dir, files.take(n)),
    decreases files.len() - n,
{
    if n < files.len() {
        assert(files.take(n + 1).drop_last() =~= files.take(n));
        lemma_strange_name_stays(dir, files, n + 1);
    } else {
        assert(files.take(n) =~= files);
    }
}

/// The numbers of a list.
pub open spec fn nats(v: Seq<u64>) -> Seq<nat> {
    Seq::new(v.len(), |i: int| v[i] as nat)
}

/// Reads the numbers of all event files of a directory; any other file there is
/// damage.
pub fn numbered_files(dir: &str, files: &Vec<String>) -> (r: Result<Vec<u64>, OpenError>)
    ensures
        match r {
            Ok(v) => numbers_in(dir@, files@) == Ok::<Seq<nat>, Trouble>(nats(v@)) && v@.len()
                == files@.len() && forall|i: int|
                0 <= i < files@.len() ==> event_number((#[trigger] files@[i])@) == Some(v@[i] as nat),
            Err(e) => numbers_in(dir@, files@) == Err::<Seq<nat>, Trouble>(e@),
        },
{
    let mut v: Vec<u64> = Vec::new();
    assert(files@.take(0) =~= Seq::empty());
    assert(nats(v@) =~= Seq::empty());
    for i in 0..files.len()
        invariant
            numbers_in(dir@, files@.take(i as int)) == Ok::<Seq<nat>, Trouble>(nats(v@)),
            v@.len() == i,
            forall|j: int|
                0 <= j < i ==> event_number((#[trigger] files@[j])@) == Some(v@[j] as nat),
    {
        assert(files@.take(i + 1).drop_last() =~= files@.take(i as int));
        match parse_numbered(files[i].as_str()) {
            Some(n) => {
                let ghost before = nats(v@);
                v.push(n);
                assert(nats(v@) =~= before.push(n as nat));
            },
            None => {
                proof {
                    lemma_strange_name_stays(dir@, files@, i + 1);
                }
                let place = join(join("目录 ", dir).as_str(), " 中存在无法识别的数据文件 ");
                return Err(corrupt(place.as_str(), files[i].as_str()));
            },
        }
    }
    assert(files@.take(files@.len() as int) =~= files@);
    Ok(v)
}

/// The header line of an event file, without its line break.
pub open spec fn header(payload: Seq<u8>) -> Seq<char> {
    "VDE1 "@ + numeral::dec_text(payload.len()) + " "@ + numeral::hex_fixed(
        crc::crc(payload) as nat,
        8,
    )
}

/// An event file.
pub open spec fn event_bytes(payload: Seq<u8>) -> Seq<u8> {
    frame::ascii_bytes(header(payload)) + frame::line_break() + payload
}

/// The index of the first line break, or the length where there is none.
pub open spec fn line_end(b: Seq<u8>) -> int
    decreases b.len(),
{
    if b.len() == 0 || b[0] == 0x0a {
        0
    } else {
        1 + line_end(b.drop_first())
    }
}

proof fn lemma_line_end(b: Seq<u8>, n: int)
    requires
        0 <= n <= b.len(),
        forall|i: int| 0 <= i < n ==> b[i] != 0x0a,
        n < b.len() ==> b[n] == 0x0a,
    ensures
        line_end(b) == n,
    decreases b.len(),
{
    if n > 0 {
        let c = b.drop_first();
        assert forall|i: int| 0 <= i < n - 1 implies c[i] != 0x0a by {
            assert(c[i] == b[i + 1]);
        }
        lemma_line_end(c, n - 1);
    }
}

/// The length that a header states; a plus sign may stand before it.
pub open spec fn header_length(parts: Seq<Seq<char>>) -> Option<nat> {
    if parts.len() > 1 {
        numeral::decimal_field(parts[1], usize::MAX as int)
    } else {
        None
    }
}

/// The checksum that a header states, in eight hexadecimal digits.
pub open spec fn header_checksum(parts: Seq<Seq<char>>) -> Option<nat> {
    if parts.len() > 2 {
        numeral::hex_field(parts[2])
    } else {
        None
    }
}

/// The payload of an event file, or what is wrong with the file.
pub open spec fn event_payload(b: Seq<u8>, path: Seq<char>) -> Result<Seq<u8>, Seq<char>> {
    let n = line_end(b);
    let payload = b.skip(n + 1);
    let parts = text::split(vstd::utf8::decode_utf8(b.take(n)), ' ');
    let length = header_length(parts);
    let checksum = header_checksum(parts);
    if n == b.len() {
        Err(path + " 缺少文件头"@)
    } else if !vstd::utf8::valid_utf8(b.take(n)) {
        Err(path + " 文件头不是合法 UTF-8"@)
    } else if length is None {
        Err(path + " 文件头长度字段非法"@)
    } else if checksum is None {
        Err(path + " 文件头校验和字段非法"@)
    } else if parts[0] != "VDE1"@ || parts.len() > 3 {
        Err(path + " 文件头无法识别"@)
    } else if payload.len() != length->0 {
        Err(
            path + " 声明长度 "@ + numeral::dec_text(length->0) + " 但实际为 "@ + numeral::dec_text(
                payload.len(),
            ),
        )
    } else if crc::crc(payload) != checksum->0 {
        Err(path + " CRC32 校验失败，文件可能已损坏或被截断"@)
    } else {
        Ok(payload)
    }
}

/// Calls `std::str::from_utf8`. Claims that it succeeds exactly on well-formed
/// UTF-8, and then gives the characters that the bytes encode.
#[verifier::external_body]
fn utf8_text(bytes: &[u8]) -> (r: Option<String>)
    ensures
        match r {
            Some(s) => vstd::utf8::valid_utf8(bytes@) && s@ == vstd::utf8::decode_utf8(bytes@),
            None => !vstd::utf8::valid_utf8(bytes@),
        },
{
    match std::str::from_utf8(bytes) {
        Ok(s) => Some(s.to_owned()),
        Err(_) => None,
    }
}

/// Takes the payload out of an event file, after checking its header, its length
/// and its checksum.
pub fn decode_event<'a>(bytes: &'a [u8], path: &str) -> (r: Result<&'a [u8], OpenError>)
    ensures
        match r {
            Ok(payload) => event_payload(bytes@, path@) == Ok::<Seq<u8>, Seq<char>>(payload@),
            Err(e) => e@ is Corrupt && event_payload(bytes@, path@) == Err::<Seq<u8>, Seq<char>>(
                e@->Corrupt_0,
            ),
        },
{
    let mut n: usize = 0;
    while n < bytes.len() && bytes[n] != 0x0a
        invariant
            n <= bytes@.len(),
            forall|i: int| 0 <= i < n ==> bytes@[i] != 0x0a,
        decreases bytes@.len() - n,
    {
        n = n + 1;
    }
    proof {
        lemma_line_end(bytes@, n as int);
    }
    if n == bytes.len() {
        return Err(corrupt(path, " 缺少文件头"));
    }
    let line = vstd::slice::slice_subrange(bytes, 0, n);
    assert(line@ =~= bytes@.take(n as int));
    let words = match utf8_text(line) {
        None => {
            return Err(corrupt(path, " 文件头不是合法 UTF-8"));
        },
        Some(words) => words,
    };
    let parts = split_at(&chars_of(words.as_str()), ' ');
    let ghost split = text::split(words@, ' ');
    let length = if parts.len() > 1 {
        read_decimal_field(parts[1].as_slice())
    } else {
        None
    };
    let length: usize = match length {
        Some(length) => length,
        None => {
            return Err(corrupt(path, " 文件头长度字段非法"));
        },
    };
    let stored = if parts.len() > 2 {
        read_hex_field(parts[2].as_slice())
    } else {
        None
    };
    let stored: u32 = match stored {
        Some(stored) => stored,
        None => {
            return Err(corrupt(path, " 文件头校验和字段非法"));
        },
    };
    assert(parts@[0]@ == split[0]);
    if !text_eq(string_of(parts[0].as_slice()).as_str(), "VDE1") || parts.len() > 3 {
        return Err(corrupt(path, " 文件头无法识别"));
    }
    let payload = vstd::slice::slice_subrange(bytes, n + 1, bytes.len());
    assert(payload@ =~= bytes@.skip(n + 1));
    if payload.len() != length {
        let place = join(join(path, " 声明长度 ").as_str(), decimal(length as u64).as_str());
        let place = join(place.as_str(), " 但实际为 ");
        return Err(corrupt(place.as_str(), decimal(payload.len() as u64).as_str()));
    }
    if crc32(payload) != stored {
        return Err(corrupt(path, " CRC32 校验失败，文件可能已损坏或被截断"));
    }
    Ok(payload)
}

proof fn lemma_header(payload: Seq<u8>)
    requires
        payload.len() <= usize::MAX,
    ensures
        frame::is_ascii(header(payload)),
        forall|i: int|
            0 <= i < header(payload).len() ==> frame::ascii_bytes(header(payload))[i] != 0x0a,
        text::split(header(payload), ' ') == seq![
            "VDE1"@,
            numeral::dec_text(payload.len()),
            numeral::hex_fixed(crc::crc(payload) as nat, 8),
        ],
        numeral::decimal_field(numeral::dec_text(payload.len()), usize::MAX as int) == Some(
            payload.len(),
        ),
        numeral::hex_field(numeral::hex_fixed(crc::crc(payload) as nat, 8)) == Some(
            crc::crc(payload) as nat,
        ),
{
    reveal_strlit("VDE1 ");
    reveal_strlit("VDE1");
    reveal_strlit(" ");
    let h = header(payload);
    let a = "VDE1"@;
    let d = numeral::dec_text(payload.len());
    let x = numeral::hex_fixed(crc::crc(payload) as nat, 8);
    numeral::lemma_dec_text(payload.len());
    numeral::lemma_eight_hex_digits();
    numeral::lemma_hex_fixed(crc::crc(payload) as nat, 8);
    numeral::lemma_hex_field_fixed(crc::crc(payload) as nat);
    assert forall|i: int| 0 <= i < d.len() implies '0' <= #[trigger] d[i] <= '9' by {
        assert(numeral::is_digit(d[i]));
    }
    assert forall|i: int| 0 <= i < x.len() implies '0' <= #[trigger] x[i] <= 'f' by {
        assert(numeral::hex_digit_value(x[i]) is Some);
    }
    assert forall|i: int| 0 <= i < h.len() implies {
        &&& 0 <= (#[trigger] h[i] as int) < 128
        &&& h[i] as int != 10
    } by {
        if i >= 5 && i < 5 + d.len() {
            assert(h[i] == d[i - 5]);
        } else if i >= 6 + d.len() {
            assert(h[i] == x[i - 6 - d.len()]);
        }
    }
    assert forall|i: int| 0 <= i < h.len() implies frame::ascii_bytes(h)[i] != 0x0a by {
        assert(h[i] as int != 10);
    }
    let rest = d + " "@ + x;
    text::lemma_cut_at(h, ' ', 4);
    assert(h.take(4) =~= a);
    assert(h.skip(5) =~= rest);
    assert forall|i: int| 0 <= i < d.len() implies rest[i] != ' ' by {
        assert(rest[i] == d[i]);
    }
    text::lemma_cut_at(rest, ' ', d.len() as int);
    assert(rest.take(d.len() as int) =~= d);
    assert(rest.skip(d.len() + 1int) =~= x);
    assert forall|i: int| 0 <= i < x.len() implies x[i] != ' ' by {
        assert('0' <= x[i]);
    }
    text::lemma_cut_at(x, ' ', x.len() as int);
    assert(text::split(x, ' ') == seq![x]);
    assert(text::split(rest, ' ') =~= seq![d, x]);
    assert(text::split(h, ' ') =~= seq![a, d, x]);
    assert(d[0] != '+');
}

proof fn lemma_header_utf8(payload: Seq<u8>)
    requires
        payload.len() <= usize::MAX,
    ensures
        vstd::utf8::valid_utf8(frame::ascii_bytes(header(payload))),
        vstd::utf8::decode_utf8(frame::ascii_bytes(header(payload))) == header(payload),
{
    let h = header(payload);
    lemma_header(payload);
    assert(vstd::utf8::is_ascii_chars(h)) by {
        assert forall|i: int| 0 <= i < h.len() implies '\0' <= #[trigger] h[i] <= '\u{7f}' by {
            assert(0 <= (h[i] as int) < 128);
        }
    }
    vstd::utf8::is_ascii_chars_encode_utf8(h);
    assert(vstd::utf8::encode_utf8(h) =~= frame::ascii_bytes(h));
    vstd::utf8::encode_utf8_valid_utf8(h);
    vstd::utf8::encode_utf8_decode_utf8(h);
}

proof fn lemma_event_line(payload: Seq<u8>, rest: Seq<u8>)
    requires
        payload.len() <= usize::MAX,
    ensures
        ({
            let h = frame::ascii_bytes(header(payload));
            let b = h + frame::line_break() + rest;
            &&& line_end(b) == h.len()
            &&& b.take(h.len() as int) == h
            &&& b.skip(h.len() + 1int) == rest
        }),
{
    lemma_header(payload);
    let h = frame::ascii_bytes(header(payload));
    let b = h + frame::line_break() + rest;
    lemma_line_end(b, h.len() as int);
    assert(b.take(h.len() as int) =~= h);
    assert(b.skip(h.len() + 1int) =~= rest);
}

/// The payload is read back from its event file as it was.
pub proof fn law_event_round_trip(payload: Seq<u8>, path: Seq<char>)
    requires
        payload.len() <= usize::MAX,
    ensures
        event_payload(event_bytes(payload), path) == Ok::<Seq<u8>, Seq<char>>(payload),
{
    lemma_header(payload);
    lemma_header_utf8(payload);
    lemma_event_line(payload, payload);
}

/// A file whose payload is not the one its header was written for, but longer,
/// shorter or wrong in one byte, is reported as damaged.
pub proof fn law_wrong_payload_reported(payload: Seq<u8>, other: Seq<u8>, path: Seq<char>)
    requires
        payload.len() <= usize::MAX,
        other.len() != payload.len() || exists|i: int, b: u8|
            0 <= i < payload.len() && b != payload[i] && other == #[trigger] payload.update(i, b),
    ensures
        event_payload(
            frame::ascii_bytes(header(payload)) + frame::line_break() + other,
            path,
        ) is Err,
{
    lemma_header(payload);
    lemma_header_utf8(payload);
    lemma_event_line(payload, other);
    if other.len() == payload.len() {
        let (i, b) = choose|i: int, b: u8|
            0 <= i < payload.len() && b != payload[i] && other == #[trigger] payload.update(i, b);
        crc::law_crc_detects_one_byte(payload, i, b);
    }
}

/// A file that ends too early is reported as damaged.
pub proof fn law_truncated_event_reported(payload: Seq<u8>, k: int, path: Seq<char>)
    requires
        payload.len() <= usize::MAX,
        0 <= k < event_bytes(payload).len(),
    ensures
        event_payload(event_bytes(payload).take(k), path) is Err,
{
    lemma_header(payload);
    let h = frame::ascii_bytes(header(payload));
    let b = event_bytes(payload).take(k);
    if k <= h.len() {
        assert forall|i: int| 0 <= i < k implies b[i] != 0x0a by {
            assert(b[i] == h[i]);
        }
        lemma_line_end(b, k);
    } else {
        let other = payload.take(k - h.len() - 1);
        assert(b =~= h + frame::line_break() + other);
        law_wrong_payload_reported(payload, other, path);
    }
}

/// Writes an event file.
pub fn encode_event(payload: &[u8]) -> (r: Vec<u8>)
    ensures
        r@ == event_bytes(payload@),
{
    let length: usize = payload.len();
    proof {
        lemma_header(payload@);
        numeral::lemma_eight_hex_digits();
    }
    let line = join("VDE1 ", decimal(length as u64).as_str());
    let line = join(join(line.as_str(), " ").as_str(), fixed_hex(crc32(payload), 8).as_str());
    let mut out: Vec<u8> = Vec::new();
    push_ascii(&mut out, line.as_str());
    out.push(0x0a);
    out.extend_from_slice(payload);
    assert(out@ =~= event_bytes(payload@));
    out
}

/// Where all files of a directory are event files, there is one number for each
/// of them, in their order: the one that its name tells. Otherwise the first
/// other file is reported.
pub proof fn law_every_file_is_numbered(dir: Seq<char>, files: Seq<String>, n: int)
    ensures
        numbers_in(dir, files) is Ok <==> forall|i: int|
            0 <= i < files.len() ==> event_number((#[trigger] files[i])@) is Some,
        numbers_in(dir, files) matches Ok(v) ==> v.len() == files.len() && forall|i: int|
            0 <= i < files.len() ==> event_number((#[trigger] files[i])@) == Some(v[i]),
        0 <= n < files.len() && event_number(files[n]@) is None && (forall|i: int|
            0 <= i < n ==> event_number((#[trigger] files[i])@) is Some) ==> numbers_in(dir, files)
            == Err::<Seq<nat>, Trouble>(
            Trouble::Corrupt("目录 "@ + dir + " 中存在无法识别的数据文件 "@ + files[n]@),
        ),
    decreases files.len(),
{
    if files.len() > 0 {
        let front = files.drop_last();
        let k = files.len() - 1;
        law_every_file_is_numbered(dir, front, n);
        assert forall|i: int| 0 <= i < k implies front[i] == files[i] by {}
        if forall|i: int| 0 <= i < files.len() ==> event_number((#[trigger] files[i])@) is Some {
            assert forall|i: int| 0 <= i < front.len() implies event_number(
                (#[trigger] front[i])@,
            ) is Some by {
                assert(event_number(files[i]@) is Some);
            }
            assert(event_number(files[k]@) is Some);
        }
        if numbers_in(dir, files) is Ok {
            let v = numbers_in(dir, files)->Ok_0;
            assert forall|i: int| 0 <= i < files.len() implies event_number((#[trigger] files[i])@)
                == Some(v[i]) by {
                if i < k {
                    assert(event_number(front[i]@) == Some(v[i]));
                }
            }
        }
        if 0 <= n < files.len() && event_number(files[n]@) is None && (forall|i: int|
            0 <= i < n ==> event_number((#[trigger] files[i])@) is Some) {
            assert forall|i: int| 0 <= i < n implies event_number((#[trigger] front[i])@) is Some by {
                assert(event_number(files[i]@) is Some);
            }
            if n == k {
                assert forall|i: int| 0 <= i < front.len() implies event_number(
                    (#[trigger] front[i])@,
                ) is Some by {}
            }
        }
    }
}

/// An event file is called by its number in twenty digits and `.json`; before it
/// is committed, by `.tmp.` and what tells processes and tries apart.
pub proof fn law_names_of_events(name: Seq<char>, process: nat, counter: nat)
    ensures
        event_number(name) == names::number_in(name, ".json"@),
        is_leftover(name) <==> exists|r: Seq<char>| name == #[trigger] (".tmp."@ + r),
        temp_file(process, counter) == ".tmp."@ + numeral::dec_text(process) + "."@
            + numeral::dec_text(counter),
{
    names::law_begins_with(name, ".tmp."@);
}

/// Why a directory is not opened is told in full.
pub proof fn law_troubles_are_told(s: Seq<char>, t: String, v: Seq<u64>, i: int)
    ensures
        trouble_text(Trouble::Locked(s)) == "持久化目录 "@ + s
            + " 已被另一个运行中的服务实例占用；多个进程不能共用同一持久化目录"@,
        trouble_text(Trouble::Corrupt(s)) == "持久化数据损坏或无法解析，拒绝启动: "@ + s,
        trouble_text(Trouble::Io(s)) == "无法访问持久化目录: "@ + s,
        nats(v).len() == v.len() && (0 <= i < v.len() ==> nats(v)[i] == v[i]),
        (OpenError::Locked { root: t })@ == Trouble::Locked(t@),
        (OpenError::Corrupt(t))@ == Trouble::Corrupt(t@),
        (OpenError::Io(t))@ == Trouble::Io(t@),
{
}

/// The header of an event file is `VDE1`, the length of the payload and its
/// checksum in eight lower-case hexadecimal digits; the payload follows its line.
pub proof fn law_event_layout(payload: Seq<u8>)
    ensures
        event_bytes(payload) == frame::ascii_bytes(
            "VDE1 "@ + numeral::dec_text(payload.len()) + " "@ + numeral::hex_fixed(
                crc::crc(payload) as nat,
                8,
            ),
        ) + seq![0x0au8] + payload,
{
}

/// A file is taken for an event exactly if its first line is UTF-8 text of three
/// words, `VDE1`, the number of the bytes that follow, and eight hexadecimal
/// digits that stand for their checksum.
pub proof fn law_events_are_read(line: Seq<u8>, rest: Seq<u8>, path: Seq<char>)
    requires
        forall|i: int| 0 <= i < line.len() ==> line[i] != 0x0a,
    ensures
        ({
            let b = line + seq![0x0au8] + rest;
            let words = text::split(vstd::utf8::decode_utf8(line), ' ');
            let length = numeral::decimal_field(words[1], usize::MAX as int);
            let sum = numeral::hex_field(words[2]);
            let utf8 = vstd::utf8::valid_utf8(line);
            let counted = utf8 && words.len() > 1 && length is Some;
            let summed = counted && words.len() > 2 && sum is Some;
            let known = summed && words.len() == 3 && words[0] == "VDE1"@;
            &&& event_payload(b, path) == Ok::<Seq<u8>, Seq<char>>(rest) <==> known && length->0
                == rest.len() && sum->0 == crc::crc(rest)
            &&& event_payload(b, path) is Ok ==> event_payload(b, path)->Ok_0 == rest
            &&& event_payload(line, path) == Err::<Seq<u8>, Seq<char>>(path + " 缺少文件头"@)
            &&& !utf8 ==> event_payload(b, path) == Err::<Seq<u8>, Seq<char>>(
                path + " 文件头不是合法 UTF-8"@,
            )
            &&& utf8 && !counted ==> event_payload(b, path) == Err::<Seq<u8>, Seq<char>>(
                path + " 文件头长度字段非法"@,
            )
            &&& counted && !summed ==> event_payload(b, path) == Err::<Seq<u8>, Seq<char>>(
                path + " 文件头校验和字段非法"@,
            )
            &&& summed && !known ==> event_payload(b, path) == Err::<Seq<u8>, Seq<char>>(
                path + " 文件头无法识别"@,
            )
            &&& known && length->0 != rest.len() ==> event_payload(b, path) == Err::<
                Seq<u8>,
                Seq<char>,
            >(
                path + " 声明长度 "@ + numeral::dec_text(length->0) + " 但实际为 "@
                    + numeral::dec_text(rest.len()),
            )
            &&& known && length->0 == rest.len() && sum->0 != crc::crc(rest) ==> event_payload(
                b,
                path,
            ) == Err::<Seq<u8>, Seq<char>>(path + " CRC32 校验失败，文件可能已损坏或被截断"@)
        }),
{
    let b = line + seq![0x0au8] + rest;
    let n = line.len() as int;
    assert forall|i: int| 0 <= i < n implies b[i] != 0x0a by {
        assert(b[i] == line[i]);
    }
    lemma_line_end(b, n);
    lemma_line_end(line, n);
    assert(b.take(n) =~= line);
    assert(b.skip(n + 1) =~= rest);
}

} // verus!
