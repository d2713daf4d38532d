use vstd::prelude::*;

verus! {

pub const COLON: u8 = 58;
pub const SPACE: u8 = 32;
pub const CR: u8 = 13;

/// Why a backend's answer cannot be turned into a response.
#[derive(PartialEq, Eq, Structural, Debug, Clone, Copy)]
pub enum CgiError {
    /// A header line without a colon, or a status that is not three digits.
    BackendError,
}

/// The header block read so far from a CGI backend's output.
pub struct CgiHead {
    pub status: u16,
    pub content_type: Option<Vec<u8>>,
    pub headers: Vec<(Vec<u8>, Vec<u8>)>,
    /// The blank line that ends the block was read.
    pub done: bool,
}

pub open spec fn lower_byte(b: u8) -> u8 {
    if 65 <= b <= 90 {
        (b + 32) as u8
    } else {
        b
    }
}

/// Equal bytes up to ASCII case.
pub open spec fn same_ignoring_case(a: Seq<u8>, b: Seq<u8>) -> bool {
    a.len() == b.len() && forall|i: int| 0 <= i < a.len() ==> lower_byte(#[trigger] a[i]) == lower_byte(b[i])
}

/// The line without one trailing carriage return.
pub open spec fn strip_cr(line: Seq<u8>) -> Seq<u8> {
    if line.len() > 0 && line[line.len() - 1] == CR {
        line.subrange(0, line.len() - 1)
    } else {
        line
    }
}

/// Position of the first colon at or after `i`.
pub open spec fn colon_from(line: Seq<u8>, i: int) -> Option<int>
    decreases line.len() - i,
{
    if i < 0 || i >= line.len() {
        None
    } else if line[i] == COLON {
        Some(i)
    } else {
        colon_from(line, i + 1)
    }
}

/// Number of spaces at the start of `s` from `i` on.
pub open spec fn spaces_from(s: Seq<u8>, i: int) -> int
    decreases s.len() - i,
{
    if i < 0 || i >= s.len() || s[i] != SPACE {
        i
    } else {
        spaces_from(s, i + 1)
    }
}

/// A header line split at its first colon, with the spaces after it removed.
pub open spec fn split_header(line: Seq<u8>) -> Option<(Seq<u8>, Seq<u8>)> {
    let l = strip_cr(line);
    match colon_from(l, 0) {
        None => None,
        Some(c) => Some((l.subrange(0, c), l.subrange(spaces_from(l, c + 1), l.len() as int))),
    }
}

pub open spec fn is_digit(b: u8) -> bool {
    48 <= b <= 57
}

/// The status code that a `Status` value starts with: three digits.
pub open spec fn status_code(v: Seq<u8>) -> Option<u16> {
    if v.len() >= 3 && is_digit(v[0]) && is_digit(v[1]) && is_digit(v[2]) && (v.len() == 3 || v[3]
        == SPACE) {
        Some(((v[0] - 48) * 100 + (v[1] - 48) * 10 + (v[2] - 48)) as u16)
    } else {
        None
    }
}

pub open spec fn status_name() -> Seq<u8> {
    seq![115u8, 116, 97, 116, 117, 115]
}

pub open spec fn content_type_name() -> Seq<u8> {
    seq![99u8, 111, 110, 116, 101, 110, 116, 45, 116, 121, 112, 101]
}

fn bytes_eq_ignoring_case(a: &[u8], b: &[u8]) -> (r: bool)
    ensures
        r == same_ignoring_case(a@, b@),
{
    if a.len() != b.len() {
        return false;
    }
    let mut i: usize = 0;
    while i < a.len()
        invariant
            a@.len() == b@.len(),
            0 <= i <= a@.len(),
            forall|k: int| 0 <= k < i ==> lower_byte(#[trigger] a@[k]) == lower_byte(b@[k]),
        decreases a@.len() - i,
    {
        let x = if a[i] >= 65 && a[i] <= 90 { a[i] + 32 } else { a[i] };
        let y = if b[i] >= 65 && b[i] <= 90 { b[i] + 32 } else { b[i] };
        if x != y {
            return false;
        }
        i = i + 1;
    }
    true
}

fn slice_to_vec(s: &[u8]) -> (r: Vec<u8>)
    ensures
        r@ == s@,
{
    let mut r: Vec<u8> = Vec::new();
    let mut i: usize = 0;
    while i < s.len()
        invariant
            0 <= i <= s@.len(),
            r@ == s@.subrange(0, i as int),
        decreases s@.len() - i,
    {
        r.push(s[i]);
        assert(s@.subrange(0, i + 1) =~= s@.subrange(0, i as int).push(s@[i as int]));
        i = i + 1;
    }
    assert(s@.subrange(0, s@.len() as int) =~= s@);
    r
}

/// Splits a header line at its first colon.
pub fn split_header_line(line: &[u8]) -> (r: Option<(Vec<u8>, Vec<u8>)>)
    ensures
        match split_header(line@) {
            None => r is None,
            Some((n, v)) => r matches Some((rn, rv)) && rn@ == n && rv@ == v,
        },
{
    let mut len = line.len();
    if len > 0 && line[len - 1] == CR {
        len = len - 1;
    }
    let ghost l = strip_cr(line@);
    assert(l =~= line@.subrange(0, len as int));
    let mut c: usize = 0;
    while c < len && line[c] != COLON
        invariant
            l == line@.subrange(0, len as int),
            len <= line@.len(),
            0 <= c <= len,
            colon_from(l, 0) == colon_from(l, c as int),
        decreases len - c,
    {
        c = c + 1;
    }
    if c == len {
        return None;
    }
    let mut v: usize = c + 1;
    while v < len && line[v] == SPACE
        invariant
            l == line@.subrange(0, len as int),
            len <= line@.len(),
            c < v <= len,
            colon_from(l, 0) == Some(c as int),
            spaces_from(l, c + 1) == spaces_from(l, v as int),
        decreases len - v,
    {
        v = v + 1;
    }
    let name = slice_to_vec(&line[0..c]);
    let value = slice_to_vec(&line[v..len]);
    proof {
        assert(name@ =~= l.subrange(0, c as int));
        assert(value@ =~= l.subrange(v as int, l.len() as int));
    }
    Some((name, value))
}

/// Reads the status code at the start of a `Status` value.
pub fn parse_status(v: &[u8]) -> (r: Option<u16>)
    ensures
        r == status_code(v@),
{
    if v.len() >= 3 && v[0] >= 48 && v[0] <= 57 && v[1] >= 48 && v[1] <= 57 && v[2] >= 48 && v[2]
        <= 57 && (v.len() == 3 || v[3] == SPACE) {
        let code = (v[0] - 48) as u16 * 100 + (v[1] - 48) as u16 * 10 + (v[2] - 48) as u16;
        Some(code)
    } else {
        None
    }
}

impl CgiHead {
    /// Nothing read yet: status 200 unless the backend says otherwise.
    pub fn new() -> (r: CgiHead)
        ensures
            r.status == 200,
            r.content_type is None,
            r.headers@.len() == 0,
            !r.done,
    {
        CgiHead { status: 200, content_type: None, headers: Vec::new(), done: false }
    }

    /// Takes one line of the header block, without its line feed. A blank
    /// line ends the block; `Status` sets the status, `Content-Type` the
    /// content type, and any other header is kept in order.
    pub fn feed_line(&mut self, line: &[u8]) -> (r: Result<(), CgiError>)
        requires
            !old(self).done,
        ensures
            strip_cr(line@).len() == 0 ==> r is Ok && final(self).done && final(self).status
                == old(self).status && final(self).content_type == old(self).content_type
                && final(self).headers@ == old(self).headers@,
            strip_cr(line@).len() > 0 ==> match split_header(line@) {
                None => r is Err,
                Some((n, v)) => if same_ignoring_case(n, status_name()) {
                    match status_code(v) {
                        Some(code) => r is Ok && final(self).status == code && !final(self).done
                            && final(self).headers@ == old(self).headers@,
                        None => r is Err,
                    }
                } else if same_ignoring_case(n, content_type_name()) {
                    &&& r is Ok
                    &&& final(self).content_type is Some
                    &&& final(self).content_type->Some_0@ == v
                    &&& final(self).status == old(self).status
                    &&& !final(self).done
                    &&& final(self).headers@ == old(self).headers@
                } else {
                    r is Ok && final(self).headers@.len() == old(self).headers@.len() + 1
                        && final(self).headers@.last().0@ == n && final(self).headers@.last().1@ == v
                        && final(self).headers@.drop_last() == old(self).headers@
                        && final(self).status == old(self).status && !final(self).done
                },
            },
            r is Err ==> !final(self).done,
    {
        let len = line.len();
        let blank = len == 0 || (len == 1 && line[0] == CR);
        if blank {
            self.done = true;
            return Ok(());
        }
        match split_header_line(line) {
            None => Err(CgiError::BackendError),
            Some((name, value)) => {
                let status_word: [u8; 6] = [115, 116, 97, 116, 117, 115];
                let ct_word: [u8; 12] = [99, 111, 110, 116, 101, 110, 116, 45, 116, 121, 112, 101];
                proof {
                    assert(status_word@ =~= status_name());
                    assert(ct_word@ =~= content_type_name());
                }
                if bytes_eq_ignoring_case(name.as_slice(), &status_word) {
                    match parse_status(value.as_slice()) {
                        Some(code) => {
                            self.status = code;
                            Ok(())
                        },
                        None => Err(CgiError::BackendError),
                    }
                } else if bytes_eq_ignoring_case(name.as_slice(), &ct_word) {
                    self.content_type = Some(value);
                    Ok(())
                } else {
                    let ghost before = self.headers@;
                    self.headers.push((name, value));
                    assert(self.headers@.drop_last() =~= before);
                    Ok(())
                }
            },
        }
    }
}

/// Whether the backend's answer fails the request: it exited with a failure
/// before a complete header block was read.
pub fn backend_failed(head: &CgiHead, exit_success: bool) -> (r: bool)
    ensures
        r == (!head.done && !exit_success),
{
    !head.done && !exit_success
}

} // verus!
