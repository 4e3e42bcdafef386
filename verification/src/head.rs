//! Message heads: the header fields of a request as the caller sees them, and the
//! head of a response as the caller gives it.
use crate::error::CodecError;
use crate::outside::{
    append_field, fields, parts_authority, parts_fields, parts_method, parts_path, parts_scheme,
    request_authority, request_fields, request_method, request_path, request_scheme, status_number,
};
use http::header::{HeaderName, HeaderValue};
use http::request::Parts;
use http::{HeaderMap, StatusCode};
use vstd::prelude::*;
use vstd::string::StrSliceExecFns;

verus! {

/// The number of names up to which a map of header fields always has room.
pub const SAFE_FIELD_COUNT: usize = 6553;

/// The status codes are the numbers of three digits.
pub open spec fn valid_status(status: u16) -> bool {
    100 <= status <= 999
}

/// A byte that is a decimal digit.
pub open spec fn is_digit(b: u8) -> bool {
    '0' <= b as char <= '9'
}

/// The status code that some bytes spell: three decimal digits, of which the first is
/// not zero.
pub open spec fn status_code(text: Seq<u8>) -> Option<u16> {
    if text.len() == 3 && is_digit(text[0]) && is_digit(text[1]) && is_digit(text[2]) && text[0] as char
        != '0' {
        Some(((text[0] - 48) * 100 + (text[1] - 48) * 10 + (text[2] - 48)) as u16)
    } else {
        None
    }
}

/// The characters that a field name is made of.
pub open spec fn token_char(b: u8) -> bool {
    let c = b as char;
    ||| '0' <= c <= '9'
    ||| 'A' <= c <= 'Z'
    ||| 'a' <= c <= 'z'
    ||| c == '!' || c == '#' || c == '$' || c == '%' || c == '&' || c == '\''
    ||| c == '*' || c == '+' || c == '-' || c == '.' || c == '^' || c == '_'
    ||| c == '`' || c == '|' || c == '~'
}

/// A name that a field may have.
pub open spec fn valid_name(name: Seq<u8>) -> bool {
    &&& 1 <= name.len() <= 65535
    &&& forall|i: int| 0 <= i < name.len() ==> token_char(#[trigger] name[i])
}

/// A byte with a capital letter put in lower case.
pub open spec fn lower(b: u8) -> u8 {
    if 'A' <= b as char <= 'Z' {
        (b + 32) as u8
    } else {
        b
    }
}

/// A name with its capital letters put in lower case.
pub open spec fn lower_case(name: Seq<u8>) -> Seq<u8> {
    name.map_values(|b: u8| lower(b))
}

/// A value that a field may have: no control characters other than tabs.
pub open spec fn valid_value(value: Seq<u8>) -> bool {
    forall|i: int| 0 <= i < value.len() ==> (#[trigger] value[i] == 9 || 32 <= value[i] && value[i] != 127)
}

/// A map without fields.
pub open spec fn no_fields() -> Map<Seq<u8>, Seq<Seq<u8>>> {
    Map::empty()
}

/// A map of fields with one more value behind those that the name has.
pub open spec fn with_field(
    fields: Map<Seq<u8>, Seq<Seq<u8>>>,
    name: Seq<u8>,
    value: Seq<u8>,
) -> Map<Seq<u8>, Seq<Seq<u8>>> {
    if fields.contains_key(name) {
        fields.insert(name, fields[name].push(value))
    } else {
        fields.insert(name, seq![value])
    }
}

/// Optional bytes as a value.
pub open spec fn optional_bytes(v: Option<Vec<u8>>) -> Option<Seq<u8>> {
    match v {
        Some(b) => Some(b@),
        None => None,
    }
}

/// A list of fields as a value.
pub open spec fn pairs(list: Seq<(Vec<u8>, Vec<u8>)>) -> Seq<(Seq<u8>, Seq<u8>)> {
    list.map_values(|p: (Vec<u8>, Vec<u8>)| (p.0@, p.1@))
}

// ---------------------------------------------------------------------------
// Requests
// ---------------------------------------------------------------------------

/// Characters as bytes, one for each.
pub open spec fn ascii(s: Seq<char>) -> Seq<u8> {
    s.map_values(|c: char| c as u8)
}

/// Gives a text of plain characters as bytes.
fn ascii_bytes(s: &str) -> (r: Vec<u8>)
    requires
        s.is_ascii(),
    ensures
        r@ == ascii(s@),
{
    proof {
        vstd::string::is_ascii_spec_bytes(s);
    }
    let r = s.as_bytes_vec();
    assert(r@ =~= ascii(s@));
    r
}

/// The head of a request in plain values.
#[derive(Debug)]
pub struct RequestHead {
    pub method: Vec<u8>,
    pub scheme: Option<Vec<u8>>,
    pub authority: Option<Vec<u8>>,
    pub path: Option<Vec<u8>>,
    pub fields: Vec<(Vec<u8>, Vec<u8>)>,
}

/// The head of a request as a value.
pub struct HeadView {
    pub method: Seq<u8>,
    pub scheme: Option<Seq<u8>>,
    pub authority: Option<Seq<u8>>,
    pub path: Option<Seq<u8>>,
    pub fields: Seq<(Seq<u8>, Seq<u8>)>,
}

impl View for RequestHead {
    type V = HeadView;

    open spec fn view(&self) -> HeadView {
        HeadView {
            method: self.method@,
            scheme: optional_bytes(self.scheme),
            authority: optional_bytes(self.authority),
            path: optional_bytes(self.path),
            fields: pairs(self.fields@),
        }
    }
}

/// The pseudo-header for a part of the head that may be missing.
pub open spec fn optional_header(name: Seq<char>, value: Option<Seq<u8>>) -> Seq<(Seq<u8>, Seq<u8>)> {
    match value {
        Some(v) => seq![(ascii(name), v)],
        None => Seq::empty(),
    }
}

impl HeadView {
    /// The path of the request; without one it is the root.
    pub open spec fn path_or_root(self) -> Seq<u8> {
        match self.path {
            Some(p) => p,
            None => ascii("/"@),
        }
    }

    /// The pseudo-headers of the request.
    pub open spec fn pseudo_headers(self) -> Seq<(Seq<u8>, Seq<u8>)> {
        seq![(ascii(":method"@), self.method)] + optional_header(":scheme"@, self.scheme)
            + optional_header(":authority"@, self.authority) + seq![
            (ascii(":path"@), self.path_or_root()),
        ]
    }

    /// The header list of the request: the pseudo-headers and then the fields.
    pub open spec fn header_list(self) -> Seq<(Seq<u8>, Seq<u8>)> {
        self.pseudo_headers() + self.fields
    }
}

/// The head of a request that `h2` hands over, as a value.
pub open spec fn parts_view(parts: Parts) -> HeadView {
    HeadView {
        method: parts_method(parts),
        scheme: parts_scheme(parts),
        authority: parts_authority(parts),
        path: parts_path(parts),
        fields: parts_fields(parts),
    }
}

/// Takes the head of a request apart into plain values.
pub fn request_head(parts: &Parts) -> (r: RequestHead)
    ensures
        r@ == parts_view(*parts),
{
    RequestHead {
        method: request_method(parts),
        scheme: request_scheme(parts),
        authority: request_authority(parts),
        path: request_path(parts),
        fields: request_fields(parts),
    }
}

/// Adds a pseudo-header where there is a value for it.
fn push_optional(list: &mut Vec<(Vec<u8>, Vec<u8>)>, name: &str, value: Option<Vec<u8>>)
    requires
        name.is_ascii(),
    ensures
        pairs(final(list)@) == pairs(old(list)@) + optional_header(name@, optional_bytes(value)),
{
    let ghost before = pairs(list@);
    if let Some(v) = value {
        list.push((ascii_bytes(name), v));
        assert(pairs(list@) =~= before + optional_header(name@, optional_bytes(value)));
    } else {
        assert(pairs(list@) =~= before + optional_header(name@, optional_bytes(value)));
    }
}

impl RequestHead {
    /// Gives the header list of the request.
    pub fn header_list(self) -> (r: Vec<(Vec<u8>, Vec<u8>)>)
        ensures
            pairs(r@) == self@.header_list(),
    {
        proof {
            reveal_strlit(":method");
            reveal_strlit(":scheme");
            reveal_strlit(":authority");
            reveal_strlit(":path");
            reveal_strlit("/");
        }
        let mut list: Vec<(Vec<u8>, Vec<u8>)> = Vec::new();
        let RequestHead { method, scheme, authority, path, fields } = self;
        list.push((ascii_bytes(":method"), method));
        assert(pairs(list@) =~= seq![(ascii(":method"@), self@.method)]);
        push_optional(&mut list, ":scheme", scheme);
        push_optional(&mut list, ":authority", authority);
        let path = match path {
            Some(p) => p,
            None => ascii_bytes("/"),
        };
        let ghost before = pairs(list@);
        list.push((ascii_bytes(":path"), path));
        assert(pairs(list@) =~= before + seq![(ascii(":path"@), self@.path_or_root())]);
        let mut fields = fields;
        let ghost before = pairs(list@);
        list.append(&mut fields);
        assert(pairs(list@) =~= before + self@.fields);
        list
    }
}

// ---------------------------------------------------------------------------
// Responses
// ---------------------------------------------------------------------------

/// A pseudo-header: its name starts with a colon.
pub open spec fn is_pseudo(name: Seq<u8>) -> bool {
    name.len() > 0 && name[0] == ':' as u8
}

/// The value of the first `:status` pseudo-header in a list of header fields.
pub open spec fn given_status(list: Seq<(Seq<u8>, Seq<u8>)>) -> Option<Seq<u8>>
    decreases list.len(),
{
    if list.len() == 0 {
        None
    } else {
        match given_status(list.drop_last()) {
            Some(value) => Some(value),
            None => if list.last().0 == ascii(":status"@) {
                Some(list.last().1)
            } else {
                None
            },
        }
    }
}

/// The status code of a response, if it has one. The `:status` pseudo-header in the list
/// of header fields supplies it; where there is none, it is `status`. An argument that is
/// no status code is refused either way.
pub open spec fn head_status(status: u16, list: Seq<(Seq<u8>, Seq<u8>)>) -> Option<u16> {
    if valid_status(status) {
        match given_status(list) {
            Some(value) => status_code(value),
            None => Some(status),
        }
    } else {
        None
    }
}

/// Compares bytes.
fn same_bytes(a: &Vec<u8>, b: &Vec<u8>) -> (r: bool)
    ensures
        r == (a@ == b@),
{
    if a.len() != b.len() {
        return false;
    }
    let mut i: usize = 0;
    while i < a.len()
        invariant
            i <= a@.len(),
            a@.len() == b@.len(),
            forall|j: int| 0 <= j < i ==> a@[j] == b@[j],
        decreases a@.len() - i,
    {
        if a[i] != b[i] {
            return false;
        }
        i = i + 1;
    }
    assert(a@ =~= b@);
    true
}

/// The value that a part of a list gives for the status is that of the whole list.
proof fn lemma_status_stays(list: Seq<(Seq<u8>, Seq<u8>)>, n: int)
    requires
        0 <= n <= list.len(),
    ensures
        given_status(list.take(n)) is Some ==> given_status(list) == given_status(list.take(n)),
    decreases list.len(),
{
    if n == list.len() {
        assert(list.take(n) =~= list);
    } else {
        assert(list.take(n) =~= list.drop_last().take(n));
        lemma_status_stays(list.drop_last(), n);
    }
}

/// Finds the status code of a response.
pub fn response_status(status: u16, headers: &Vec<(Vec<u8>, Vec<u8>)>) -> (r: Result<
    StatusCode,
    CodecError,
>)
    ensures
        match head_status(status, pairs(headers@)) {
            Some(code) => r matches Ok(found) && status_number(found) == code,
            None => r matches Err(e) && e is InvalidStatus,
        },
{
    let argument = match StatusCode::from_u16(status) {
        Ok(code) => code,
        Err(e) => return Err(CodecError::InvalidStatus(e)),
    };
    proof {
        reveal_strlit(":status");
    }
    let status_name = ascii_bytes(":status");
    let ghost list = pairs(headers@);
    let mut i: usize = 0;
    assert(list.take(0) =~= Seq::empty());
    while i < headers.len()
        invariant
            i <= headers@.len(),
            list == pairs(headers@),
            valid_status(status),
            status_name@ == ascii(":status"@),
            given_status(list.take(i as int)) is None,
        decreases headers@.len() - i,
    {
        proof {
            assert(list.take(i + 1).drop_last() =~= list.take(i as int));
            assert(list.take(i + 1).last() == (headers@[i as int].0@, headers@[i as int].1@));
            lemma_status_stays(list, i + 1);
        }
        if same_bytes(&headers[i].0, &status_name) {
            return match StatusCode::from_bytes(headers[i].1.as_slice()) {
                Ok(code) => Ok(code),
                Err(e) => Err(CodecError::InvalidStatus(e)),
            };
        }
        i = i + 1;
    }
    assert(list.take(i as int) =~= list);
    Ok(argument)
}

/// What is wrong with a header field.
pub enum FieldFault {
    Name,
    Value,
}

impl FieldFault {
    /// `e` is the error for the fault.
    pub open spec fn reported_as(self, e: CodecError) -> bool {
        match self {
            FieldFault::Name => e is InvalidHeaderName,
            FieldFault::Value => e is InvalidHeaderValue,
        }
    }
}

/// What is wrong with one header field. Pseudo-headers are passed over.
pub open spec fn field_fault(field: (Seq<u8>, Seq<u8>)) -> Option<FieldFault> {
    if is_pseudo(field.0) {
        None
    } else if !valid_name(field.0) {
        Some(FieldFault::Name)
    } else if !valid_value(field.1) {
        Some(FieldFault::Value)
    } else {
        None
    }
}

/// The first thing that is wrong in a list of header fields.
pub open spec fn first_fault(list: Seq<(Seq<u8>, Seq<u8>)>) -> Option<FieldFault>
    decreases list.len(),
{
    if list.len() == 0 {
        None
    } else {
        match first_fault(list.drop_last()) {
            Some(fault) => Some(fault),
            None => field_fault(list.last()),
        }
    }
}

/// The fields of a response for a list of header fields: the regular ones, with
/// their names in lower case.
pub open spec fn response_fields(list: Seq<(Seq<u8>, Seq<u8>)>) -> Map<Seq<u8>, Seq<Seq<u8>>>
    decreases list.len(),
{
    if list.len() == 0 {
        no_fields()
    } else {
        let before = response_fields(list.drop_last());
        let (name, value) = list.last();
        if is_pseudo(name) {
            before
        } else {
            with_field(before, lower_case(name), value)
        }
    }
}

/// A list may have more names than a map has room for: up to some point nothing is wrong
/// in it, and there are more names than always fit.
pub open spec fn overfull(list: Seq<(Seq<u8>, Seq<u8>)>) -> bool {
    exists|n: int|
        {
            &&& 0 <= n <= list.len()
            &&& first_fault(#[trigger] list.take(n)) is None
            &&& response_fields(list.take(n)).dom().len() > SAFE_FIELD_COUNT
        }
}

/// A list of no more names, or of no more entries, than always fit has room.
pub proof fn law_few_names_fit(list: Seq<(Seq<u8>, Seq<u8>)>)
    ensures
        response_fields(list).dom().len() <= SAFE_FIELD_COUNT ==> !overfull(list),
        list.len() <= SAFE_FIELD_COUNT ==> !overfull(list),
{
    assert forall|n: int| 0 <= n <= list.len() implies response_fields(
        #[trigger] list.take(n),
    ).dom().len() <= response_fields(list).dom().len() <= list.len() by {
        lemma_names_grow(list, n);
    }
}

/// The names of a part of a list are among those of the whole list, and they are no
/// more than it has entries.
proof fn lemma_names_grow(list: Seq<(Seq<u8>, Seq<u8>)>, n: int)
    requires
        0 <= n <= list.len(),
    ensures
        response_fields(list).dom().finite(),
        response_fields(list).dom().len() <= list.len(),
        response_fields(list.take(n)).dom().subset_of(response_fields(list).dom()),
        response_fields(list.take(n)).dom().len() <= response_fields(list).dom().len(),
    decreases list.len(),
{
    if list.len() == 0 {
        assert(list.take(n) =~= list);
        assert(response_fields(list).dom() =~= Set::<Seq<u8>>::empty());
    } else {
        let front = list.drop_last();
        if n == list.len() {
            lemma_names_grow(front, n - 1);
            assert(list.take(n) =~= list);
        } else {
            lemma_names_grow(front, n);
            assert(list.take(n) =~= front.take(n));
        }
        vstd::set_lib::lemma_len_subset(
            response_fields(list.take(n)).dom(),
            response_fields(list).dom(),
        );
    }
}

/// Builds the fields of a response from a list of header fields. Pseudo-headers are
/// passed over: the status code of the response is found apart from the fields.
pub fn response_headers(headers: &Vec<(Vec<u8>, Vec<u8>)>) -> (r: Result<HeaderMap, CodecError>)
    ensures
        r matches Ok(map) ==> {
            &&& first_fault(pairs(headers@)) is None
            &&& fields(map) == response_fields(pairs(headers@))
        },
        r matches Err(e) ==> if e is TooManyHeaders {
            overfull(pairs(headers@))
        } else {
            first_fault(pairs(headers@)) matches Some(fault) && fault.reported_as(e)
        },
{
    let ghost list = pairs(headers@);
    let mut map = HeaderMap::new();
    let mut i: usize = 0;
    assert(list.take(0) =~= Seq::empty());
    while i < headers.len()
        invariant
            i <= headers@.len(),
            list == pairs(headers@),
            first_fault(list.take(i as int)) is None,
            fields(map) == response_fields(list.take(i as int)),
        decreases headers@.len() - i,
    {
        let name = &headers[i].0;
        let value = &headers[i].1;
        proof {
            assert(list.take(i + 1).drop_last() =~= list.take(i as int));
            assert(list.take(i + 1).last() == (name@, value@));
            lemma_fault_stays(list, i + 1);
        }
        let pseudo = name.len() > 0 && name[0] == 58;
        if !pseudo {
            let header_name = match HeaderName::from_bytes(name.as_slice()) {
                Ok(n) => n,
                Err(e) => return Err(CodecError::InvalidHeaderName(e)),
            };
            let header_value = match HeaderValue::from_bytes(value.as_slice()) {
                Ok(v) => v,
                Err(e) => return Err(CodecError::InvalidHeaderValue(e)),
            };
            if append_field(&mut map, header_name, header_value).is_err() {
                return Err(CodecError::TooManyHeaders);
            }
        }
        i = i + 1;
    }
    assert(list.take(i as int) =~= list);
    Ok(map)
}

/// A fault in a part of a list is the first fault of the whole list.
proof fn lemma_fault_stays(list: Seq<(Seq<u8>, Seq<u8>)>, n: int)
    requires
        0 <= n <= list.len(),
    ensures
        first_fault(list.take(n)) is Some ==> first_fault(list) == first_fault(list.take(n)),
    decreases list.len(),
{
    if n == list.len() {
        assert(list.take(n) =~= list);
    } else {
        assert(list.take(n) =~= list.drop_last().take(n));
        lemma_fault_stays(list.drop_last(), n);
    }
}

} // verus!
