//! Request and trailer headers: what the proxy reads from a header map.

use vstd::prelude::*;
use vstd::utf8::*;
use vstd::string::*;
use crate::text::{
    byte_strings, bytes_eq, bytes_less, bytes_lt, find_first_from, first_index_from,
    lemma_add_contains, lemma_bytes_lt_total, lemma_bytes_lt_transitive, lemma_first_index_from,
    lemma_push_contains,
};
use crate::field_ref::split_on;

verus! {

/// `http::HeaderValue`: the value of one header. Nothing is claimed of
/// it; it is only carried.
#[verifier::external_type_specification]
#[verifier::external_body]
pub struct ExHeaderValue(http::HeaderValue);

/// `http::HeaderMap`: the headers of a request or the trailers of a
/// response. What it holds is `header_entries`.
#[verifier::external_type_specification]
#[verifier::external_body]
#[verifier::reject_recursive_types(T)]
pub struct ExHeaderMap<T>(http::HeaderMap<T>);

/// The pairs of header name and value that a header map holds, in the order
/// in which the map hands them out. A name is held in lower case.
pub uninterp spec fn header_entries(m: http::HeaderMap) -> Seq<(Seq<u8>, Seq<u8>)>;

/// The lower-case form of an ASCII byte.
pub open spec fn lower_byte(b: u8) -> u8 {
    if 0x41 <= b <= 0x5a {
        (b + 0x20) as u8
    } else {
        b
    }
}

/// `s` with every ASCII capital folded to its small letter.
pub open spec fn lower_bytes(s: Seq<u8>) -> Seq<u8> {
    Seq::new(s.len(), |i: int| lower_byte(s[i]))
}

/// The values that `entries` holds under `name`, in their order.
pub open spec fn values_of(entries: Seq<(Seq<u8>, Seq<u8>)>, name: Seq<u8>) -> Seq<Seq<u8>>
    decreases entries.len(),
{
    if entries.len() == 0 {
        seq![]
    } else if entries.last().0 == name {
        values_of(entries.drop_last(), name).push(entries.last().1)
    } else {
        values_of(entries.drop_last(), name)
    }
}

/// The names under which `entries` holds a value, each once, in the order in
/// which they first occur.
pub open spec fn names_of(entries: Seq<(Seq<u8>, Seq<u8>)>) -> Seq<Seq<u8>>
    decreases entries.len(),
{
    if entries.len() == 0 {
        seq![]
    } else {
        let rest = names_of(entries.drop_last());
        if rest.contains(entries.last().0) {
            rest
        } else {
            rest.push(entries.last().0)
        }
    }
}

/// `http::HeaderMap::get_all`, with the name looked up as
/// `http::HeaderName::from_bytes` reads it: the values held under the
/// lower-case form of `name`, in the map's order. A byte string that is no
/// header name gets the empty list, as no entry is held under it.
#[verifier::external_body]
pub(crate) fn header_values(headers: &http::HeaderMap, name: &[u8]) -> (r: Vec<Vec<u8>>)
    ensures
        byte_strings(r@) == values_of(header_entries(*headers), lower_bytes(name@)),
{
    match http::HeaderName::from_bytes(name) {
        Ok(n) => headers.get_all(n).iter().map(|v| v.as_bytes().to_vec()).collect(),
        Err(_) => Vec::new(),
    }
}

/// `http::HeaderMap::keys`: every name that the map holds, once, in the map's
/// order, as text.
#[verifier::external_body]
pub(crate) fn header_names(headers: &http::HeaderMap) -> (r: Vec<String>)
    ensures
        r@.len() == names_of(header_entries(*headers)).len(),
        forall|i: int|
            0 <= i < r@.len() ==> encode_utf8(#[trigger] r@[i]@) == names_of(
                header_entries(*headers),
            )[i],
{
    headers.keys().map(|k| k.as_str().to_owned()).collect()
}

/// Whether a byte is a blank that is cut from the ends of a header name: a
/// space or a tab.
pub open spec fn is_blank(b: u8) -> bool {
    b == 0x20 || b == 0x09
}

/// Whether a byte may stand in header text: a visible ASCII character, a
/// space or a tab.
pub open spec fn is_text_byte(b: u8) -> bool {
    (32 <= b < 127) || b == 0x09
}

/// Whether every byte of `s` may stand in header text.
pub open spec fn is_text(s: Seq<u8>) -> bool {
    forall|i: int| 0 <= i < s.len() ==> is_text_byte(#[trigger] s[i])
}

/// `s` without the blanks at its start.
pub open spec fn trim_start(s: Seq<u8>) -> Seq<u8>
    decreases s.len(),
{
    if s.len() > 0 && is_blank(s[0]) {
        trim_start(s.drop_first())
    } else {
        s
    }
}

/// `s` without the blanks at its end.
pub open spec fn trim_end(s: Seq<u8>) -> Seq<u8>
    decreases s.len(),
{
    if s.len() > 0 && is_blank(s.last()) {
        trim_end(s.drop_last())
    } else {
        s
    }
}

/// A header name as it is kept in a set: without blanks at either end, in
/// lower case.
pub open spec fn normal_name(s: Seq<u8>) -> Seq<u8> {
    lower_bytes(trim_end(trim_start(s)))
}

/// The names that a list of `Vary` values holds: each value is cut at its
/// commas and every piece is brought to its normal form.
pub open spec fn vary_names(values: Seq<Seq<u8>>) -> Seq<Seq<u8>>
    decreases values.len(),
{
    if values.len() == 0 {
        seq![]
    } else {
        vary_names(values.drop_last()) + names_in_value(values.last())
    }
}

/// The byte `,` that parts the names of one `Vary` value.
pub const COMMA: u8 = 0x2c;

/// Whether a sequence of names ascends strictly in the order of a dictionary.
pub open spec fn strictly_ascending(names: Seq<Seq<u8>>) -> bool {
    forall|i: int, j: int| 0 <= i < j < names.len() ==> bytes_lt(#[trigger] names[i], #[trigger] names[j])
}

/// A set of header names, kept in ascending order.
#[derive(Debug)]
pub struct HeaderSet {
    names: Vec<Vec<u8>>,
}

impl View for HeaderSet {
    type V = Seq<Seq<u8>>;

    closed spec fn view(&self) -> Seq<Seq<u8>> {
        byte_strings(self.names@)
    }
}

impl HeaderSet {
    /// The names ascend strictly: the order is that of a dictionary and no
    /// name stands twice.
    pub open spec fn wf(&self) -> bool {
        strictly_ascending(self@)
    }

    /// The empty set.
    pub fn new() -> (s: HeaderSet)
        ensures
            s@ == Seq::<Seq<u8>>::empty(),
            s.wf(),
    {
        let names: Vec<Vec<u8>> = Vec::new();
        proof {
            assert(byte_strings(names@) =~= Seq::<Seq<u8>>::empty());
        }
        HeaderSet { names }
    }

    /// How many names the set holds.
    pub fn len(&self) -> (n: usize)
        ensures
            n == self@.len(),
    {
        self.names.len()
    }

    /// The name at position `i` of the ascending order.
    pub fn name(&self, i: usize) -> (n: &Vec<u8>)
        requires
            i < self@.len(),
        ensures
            n@ == self@[i as int],
    {
        &self.names[i]
    }

    /// Whether the set holds `name`.
    pub fn contains(&self, name: &[u8]) -> (r: bool)
        ensures
            r == self@.contains(name@),
    {
        let mut i: usize = 0;
        while i < self.names.len()
            invariant
                i <= self.names.len(),
                forall|j: int| 0 <= j < i ==> self@[j] != name@,
            decreases self.names.len() - i,
        {
            if bytes_eq(self.names[i].as_slice(), name) {
                assert(self@[i as int] == name@);
                return true;
            }
            i += 1;
        }
        false
    }

    /// Adds `name` to the set; a name that the set holds already changes
    /// nothing.
    pub fn insert(&mut self, name: Vec<u8>)
        requires
            old(self).wf(),
        ensures
            forall|n: Seq<u8>| final(self)@.contains(n) <==> (old(self)@.contains(n) || n == name@),
            final(self).wf(),
    {
        let ghost before = self@;
        let mut p: usize = 0;
        while p < self.names.len() && bytes_less(self.names[p].as_slice(), name.as_slice())
            invariant
                p <= self.names.len(),
                self@ == before,
                forall|j: int| 0 <= j < p ==> bytes_lt(#[trigger] before[j], name@),
            decreases self.names.len() - p,
        {
            p += 1;
        }
        if p < self.names.len() && bytes_eq(self.names[p].as_slice(), name.as_slice()) {
            assert(before[p as int] == name@);
            return ;
        }
        proof {
            if p < before.len() {
                lemma_bytes_lt_total(before[p as int], name@);
            }
            assert forall|j: int| p <= j < before.len() implies bytes_lt(name@, #[trigger] before[j]) by {
                if j > p {
                    lemma_bytes_lt_transitive(name@, before[p as int], before[j]);
                }
            }
            assert forall|j: int| 0 <= j < before.len() implies before[j] != name@ by {
                lemma_bytes_lt_total(before[j], name@);
            }
        }
        let ghost added = name@;
        self.names.insert(p, name);
        proof {
            let after = byte_strings(self.names@);
            assert(after =~= before.insert(p as int, added));
            assert forall|i: int, j: int| 0 <= i < j < after.len() implies bytes_lt(
                #[trigger] after[i],
                #[trigger] after[j],
            ) by {
                let bi = if i < p { i } else { i - 1 };
                let bj = if j < p { j } else { j - 1 };
                if i != p && j != p {
                    assert(after[i] == before[bi]);
                    assert(after[j] == before[bj]);
                }
            }
            assert forall|n: Seq<u8>| after.contains(n) <==> (before.contains(n) || n == added) by {
                if after.contains(n) {
                    let k = choose|k: int| 0 <= k < after.len() && after[k] == n;
                    if k < p {
                        assert(before[k] == n);
                    } else if k > p {
                        assert(before[k - 1] == n);
                    }
                }
                if before.contains(n) {
                    let k = choose|k: int| 0 <= k < before.len() && before[k] == n;
                    if k < p {
                        assert(after[k] == n);
                    } else {
                        assert(after[k + 1] == n);
                    }
                }
                if n == added {
                    assert(after[p as int] == n);
                }
            }
        }
    }
}

/// The header name `vary`.
pub open spec fn vary_header() -> Seq<u8> {
    seq![0x76u8, 0x61u8, 0x72u8, 0x79u8]
}

/// Why a request's headers were refused.
#[derive(Debug, PartialEq, Eq, Clone, Copy)]
pub enum HeaderError {
    /// A `Vary` value holds a byte that is no visible ASCII character, space
    /// or tab.
    InvalidVaryHeader,
}

/// Whether every byte of `value` may stand in header text.
pub fn check_text(value: &[u8]) -> (r: bool)
    ensures
        r == is_text(value@),
{
    let mut i: usize = 0;
    while i < value.len()
        invariant
            i <= value.len(),
            forall|j: int| 0 <= j < i ==> is_text_byte(#[trigger] value@[j]),
        decreases value.len() - i,
    {
        let b = value[i];
        if !((b >= 32 && b < 127) || b == 0x09) {
            return false;
        }
        i += 1;
    }
    true
}

/// Brings the name `piece[from..to]` to its normal form: the blanks at both
/// ends are cut and capitals are folded to small letters.
pub fn normalize_name(piece: &[u8], from: usize, to: usize) -> (r: Vec<u8>)
    requires
        from <= to <= piece.len(),
    ensures
        r@ == normal_name(piece@.subrange(from as int, to as int)),
        is_text(piece@.subrange(from as int, to as int)) ==> crate::hash::nul_free(r@),
{
    let ghost s = piece@.subrange(from as int, to as int);
    let mut start: usize = from;
    while start < to && (piece[start] == 0x20 || piece[start] == 0x09)
        invariant
            from <= start <= to <= piece.len(),
            trim_start(s) == trim_start(piece@.subrange(start as int, to as int)),
        decreases to - start,
    {
        proof {
            assert(piece@.subrange(start as int, to as int).drop_first() =~= piece@.subrange(
                start + 1,
                to as int,
            ));
        }
        start += 1;
    }
    let ghost t = piece@.subrange(start as int, to as int);
    assert(trim_start(s) == t);
    let mut end: usize = to;
    while end > start && (piece[end - 1] == 0x20 || piece[end - 1] == 0x09)
        invariant
            start <= end <= to <= piece.len(),
            trim_end(t) == trim_end(piece@.subrange(start as int, end as int)),
        decreases end - start,
    {
        proof {
            assert(piece@.subrange(start as int, end as int).drop_last() =~= piece@.subrange(
                start as int,
                end - 1,
            ));
        }
        end -= 1;
    }
    let ghost u = piece@.subrange(start as int, end as int);
    assert(trim_end(t) == u);
    let mut out: Vec<u8> = Vec::new();
    let mut i: usize = start;
    while i < end
        invariant
            start <= i <= end <= piece.len(),
            out@ == lower_bytes(piece@.subrange(start as int, i as int)),
        decreases end - i,
    {
        let b = piece[i];
        let low: u8 = if b >= 0x41 && b <= 0x5a {
            b + 0x20
        } else {
            b
        };
        out.push(low);
        proof {
            assert(out@ =~= lower_bytes(piece@.subrange(start as int, i + 1)));
        }
        i += 1;
    }
    proof {
        if is_text(s) {
            assert forall|k: int| 0 <= k < out@.len() implies #[trigger] out@[k] != 0 by {
                assert(out@[k] == lower_byte(piece@.subrange(start as int, end as int)[k]));
                assert(piece@[start + k] == s[start + k - from]);
                assert(is_text_byte(s[start + k - from]));
            }
        }
    }
    out
}

/// The normal form of each of `pieces`.
pub open spec fn normal_names(pieces: Seq<Seq<u8>>) -> Seq<Seq<u8>> {
    pieces.map_values(|p: Seq<u8>| normal_name(p))
}

/// The normal forms of the pieces into which commas cut `value`.
pub open spec fn names_in_value(value: Seq<u8>) -> Seq<Seq<u8>> {
    normal_names(split_on(value, COMMA))
}

/// Whether no name of `names` holds a zero byte.
pub open spec fn names_without_zero(names: Seq<Seq<u8>>) -> bool {
    forall|n: Seq<u8>| #[trigger] names.contains(n) ==> crate::hash::nul_free(n)
}

/// Whether `set` holds exactly the names of `base` and of `extra`.
pub open spec fn holds_both(set: Seq<Seq<u8>>, base: Seq<Seq<u8>>, extra: Seq<Seq<u8>>) -> bool {
    forall|n: Seq<u8>| #[trigger] set.contains(n) <==> (base.contains(n) || extra.contains(n))
}

/// Adds to `set` every name that one `Vary` value holds.
pub fn add_names_of_value(set: &mut HeaderSet, value: &[u8])
    requires
        old(set).wf(),
    ensures
        final(set).wf(),
        holds_both(final(set)@, old(set)@, names_in_value(value@)),
        (is_text(value@) && names_without_zero(old(set)@)) ==> names_without_zero(final(set)@),
{
    let ghost mut done: Seq<Seq<u8>> = seq![];
    let mut start: usize = 0;
    proof {
        assert(value@.subrange(0, value@.len() as int) =~= value@);
        assert(done + split_on(value@, COMMA) =~= split_on(value@, COMMA));
    }
    loop
        invariant_except_break
            start <= value.len(),
            set.wf(),
            split_on(value@, COMMA) == done + split_on(
                value@.subrange(start as int, value@.len() as int),
                COMMA,
            ),
            holds_both(set@, old(set)@, normal_names(done)),
            (is_text(value@) && names_without_zero(old(set)@)) ==> names_without_zero(set@),
        ensures
            set.wf(),
            holds_both(set@, old(set)@, names_in_value(value@)),
            (is_text(value@) && names_without_zero(old(set)@)) ==> names_without_zero(set@),
        decreases value.len() - start,
    {
        let ghost rest = value@.subrange(start as int, value@.len() as int);
        let i = find_first_from(value, COMMA, start);
        let name = normalize_name(value, start, i);
        let ghost piece = value@.subrange(start as int, i as int);
        let ghost set_before = set@;
        let ghost done_before = done;
        let ghost added = name@;
        set.insert(name);
        proof {
            lemma_first_index_from(value@, COMMA, start as int);
            lemma_first_index_shift(value@, COMMA, start as int);
            done = done.push(piece);
            assert(added == normal_name(piece));
            assert(normal_names(done) =~= normal_names(done_before).push(normal_name(piece)));
            assert forall|n: Seq<u8>| #[trigger]
                set@.contains(n) <==> (old(set)@.contains(n) || normal_names(done).contains(n)) by {
                lemma_push_contains(normal_names(done_before), normal_name(piece), n);
                assert(set@.contains(n) <==> (set_before.contains(n) || n == added));
                assert(set_before.contains(n) <==> (old(set)@.contains(n) || normal_names(
                    done_before,
                ).contains(n)));
            }
            assert(holds_both(set@, old(set)@, normal_names(done)));
            if is_text(value@) && names_without_zero(old(set)@) {
                assert(is_text(piece)) by {
                    assert forall|k: int| 0 <= k < piece.len() implies is_text_byte(
                        #[trigger] piece[k],
                    ) by {
                        assert(piece[k] == value@[start + k]);
                    }
                }
                assert forall|n: Seq<u8>| #[trigger] set@.contains(n) implies crate::hash::nul_free(
                    n,
                ) by {
                    assert(set@.contains(n) <==> (set_before.contains(n) || n == added));
                }
            }
            assert(rest.subrange(0, i - start) =~= piece);
        }
        if i >= value.len() {
            proof {
                assert(piece =~= rest);
                assert(split_on(rest, COMMA) =~= seq![rest]);
                assert(done =~= split_on(value@, COMMA));
            }
            break ;
        }
        proof {
            assert(rest.subrange(i - start + 1, rest.len() as int) =~= value@.subrange(
                i + 1,
                value@.len() as int,
            ));
            assert(split_on(rest, COMMA) =~= seq![piece] + split_on(
                value@.subrange(i + 1, value@.len() as int),
                COMMA,
            ));
            assert(done_before + split_on(rest, COMMA) =~= done + split_on(
                value@.subrange(i + 1, value@.len() as int),
                COMMA,
            ));
        }
        start = i + 1;
    }
}

/// Searching `s` from `from` on finds what searching its tail finds.
pub proof fn lemma_first_index_shift(s: Seq<u8>, b: u8, from: int)
    requires
        0 <= from <= s.len(),
    ensures
        first_index_from(s.subrange(from, s.len() as int), b, 0) == first_index_from(s, b, from)
            - from,
{
    lemma_first_index_shift_at(s, b, from, 0);
}

proof fn lemma_first_index_shift_at(s: Seq<u8>, b: u8, from: int, k: int)
    requires
        0 <= from <= s.len(),
        0 <= k <= s.len() - from,
    ensures
        first_index_from(s.subrange(from, s.len() as int), b, k) == first_index_from(
            s,
            b,
            from + k,
        ) - from,
    decreases s.len() - from - k,
{
    let t = s.subrange(from, s.len() as int);
    if k < t.len() {
        assert(t[k] == s[from + k]);
        if t[k] != b {
            lemma_first_index_shift_at(s, b, from, k + 1);
        }
    }
}

/// Reads the `Vary` headers of a request: every value is cut at its commas,
/// each name is stripped of blanks and folded to lower case, and the names
/// are gathered into an ordered set. A value that is no header text is
/// refused.
pub fn make_vary_headers_set(headers: &http::HeaderMap) -> (r: Result<HeaderSet, HeaderError>)
    ensures
        r is Ok <==> forall|i: int|
            0 <= i < values_of(header_entries(*headers), vary_header()).len() ==> is_text(
                #[trigger] values_of(header_entries(*headers), vary_header())[i],
            ),
        r matches Ok(set) ==> set.wf() && holds_both(
            set@,
            Seq::empty(),
            vary_names(values_of(header_entries(*headers), vary_header())),
        ) && names_without_zero(set@),
{
    let name: Vec<u8> = vec![0x76u8, 0x61u8, 0x72u8, 0x79u8];
    proof {
        assert(lower_bytes(name@) =~= vary_header());
    }
    let values = header_values(headers, name.as_slice());
    let ghost all = values_of(header_entries(*headers), vary_header());
    let mut set = HeaderSet::new();
    let mut k: usize = 0;
    proof {
        assert(all.subrange(0, 0) =~= Seq::<Seq<u8>>::empty());
    }
    while k < values.len()
        invariant
            k <= values.len(),
            byte_strings(values@) == all,
            all == values_of(header_entries(*headers), vary_header()),
            set.wf(),
            forall|i: int| 0 <= i < k ==> is_text(#[trigger] all[i]),
            holds_both(set@, Seq::empty(), vary_names(all.subrange(0, k as int))),
            names_without_zero(set@),
        decreases values.len() - k,
    {
        assert(all[k as int] == values@[k as int]@);
        if !check_text(values[k].as_slice()) {
            assert(k < all.len());
            assert(!is_text(all[k as int]));
            return Err(HeaderError::InvalidVaryHeader);
        }
        let ghost set_before = set@;
        add_names_of_value(&mut set, values[k].as_slice());
        proof {
            let head = all.subrange(0, k as int);
            let next = all.subrange(0, k + 1);
            assert(next.drop_last() =~= head);
            assert(next.last() == all[k as int]);
            assert forall|n: Seq<u8>| #[trigger]
                set@.contains(n) <==> (Seq::<Seq<u8>>::empty().contains(n) || vary_names(
                    next,
                ).contains(n)) by {
                lemma_add_contains(vary_names(head), names_in_value(all[k as int]), n);
                assert(set@.contains(n) <==> (set_before.contains(n) || names_in_value(
                    all[k as int],
                ).contains(n)));
                assert(set_before.contains(n) <==> (Seq::<Seq<u8>>::empty().contains(n)
                    || vary_names(head).contains(n)));
            }
        }
        k += 1;
    }
    proof {
        assert(all.subrange(0, k as int) =~= all);
    }
    Ok(set)
}

/// Whether `name` is one of the headers that every request keeps: `host`,
/// `content-type`, `te`, `vary` and `user-agent`.
pub open spec fn is_core_header(name: Seq<u8>) -> bool {
    ||| name == seq![0x68u8, 0x6fu8, 0x73u8, 0x74u8]
    ||| name == seq![
        0x63u8, 0x6fu8, 0x6eu8, 0x74u8, 0x65u8, 0x6eu8, 0x74u8, 0x2du8, 0x74u8, 0x79u8, 0x70u8,
        0x65u8,
    ]
    ||| name == seq![0x74u8, 0x65u8]
    ||| name == vary_header()
    ||| name == seq![
        0x75u8, 0x73u8, 0x65u8, 0x72u8, 0x2du8, 0x61u8, 0x67u8, 0x65u8, 0x6eu8, 0x74u8,
    ]
}

/// Whether `name` is one of the headers that every request keeps.
pub fn core_header(name: &[u8]) -> (r: bool)
    ensures
        r == is_core_header(name@),
{
    let host: Vec<u8> = vec![0x68u8, 0x6fu8, 0x73u8, 0x74u8];
    let content_type: Vec<u8> = vec![
        0x63u8, 0x6fu8, 0x6eu8, 0x74u8, 0x65u8, 0x6eu8, 0x74u8, 0x2du8, 0x74u8, 0x79u8, 0x70u8,
        0x65u8,
    ];
    let te: Vec<u8> = vec![0x74u8, 0x65u8];
    let vary: Vec<u8> = vec![0x76u8, 0x61u8, 0x72u8, 0x79u8];
    let user_agent: Vec<u8> = vec![
        0x75u8, 0x73u8, 0x65u8, 0x72u8, 0x2du8, 0x61u8, 0x67u8, 0x65u8, 0x6eu8, 0x74u8,
    ];
    bytes_eq(name, host.as_slice()) || bytes_eq(name, content_type.as_slice()) || bytes_eq(
        name,
        te.as_slice(),
    ) || bytes_eq(name, vary.as_slice()) || bytes_eq(name, user_agent.as_slice())
}

/// Whether a request header stays on a cached request: it is a core header,
/// one that the request names in `Vary`, or one that the configuration lets
/// through to the upstream.
pub open spec fn keeps_header(name: Seq<u8>, vary: Seq<Seq<u8>>, propagation: Seq<Seq<u8>>) -> bool {
    is_core_header(name) || vary.contains(name) || propagation.contains(name)
}

/// The names among `names` that do not stay, in their order.
pub open spec fn strip_names(
    names: Seq<Seq<u8>>,
    vary: Seq<Seq<u8>>,
    propagation: Seq<Seq<u8>>,
) -> Seq<Seq<u8>>
    decreases names.len(),
{
    if names.len() == 0 {
        seq![]
    } else if keeps_header(names.last(), vary, propagation) {
        strip_names(names.drop_last(), vary, propagation)
    } else {
        strip_names(names.drop_last(), vary, propagation).push(names.last())
    }
}

/// What a list of texts holds: the UTF-8 bytes of each, in order.
pub open spec fn text_bytes(v: Seq<String>) -> Seq<Seq<u8>> {
    v.map_values(|s: String| encode_utf8(s@))
}

/// Names every request header that must be taken off a request before it is
/// cached or forwarded for caching: all but the core headers, the headers of
/// `vary_set` and those of `propagation_set`.
pub fn find_strip_headers(
    req_headers: &http::HeaderMap,
    vary_set: &HeaderSet,
    propagation_set: &HeaderSet,
) -> (r: Vec<String>)
    ensures
        text_bytes(r@) == strip_names(
            names_of(header_entries(*req_headers)),
            vary_set@,
            propagation_set@,
        ),
{
    let names = header_names(req_headers);
    let ghost all = names_of(header_entries(*req_headers));
    let mut out: Vec<String> = Vec::new();
    let mut i: usize = 0;
    proof {
        assert(all.subrange(0, 0) =~= Seq::<Seq<u8>>::empty());
        assert(text_bytes(out@) =~= Seq::<Seq<u8>>::empty());
    }
    while i < names.len()
        invariant
            i <= names.len(),
            names@.len() == all.len(),
            forall|j: int| 0 <= j < names@.len() ==> encode_utf8(#[trigger] names@[j]@) == all[j],
            text_bytes(out@) == strip_names(all.subrange(0, i as int), vary_set@, propagation_set@),
        decreases names.len() - i,
    {
        let key = names[i].as_str().as_bytes();
        let keep = core_header(key) || vary_set.contains(key) || propagation_set.contains(key);
        proof {
            assert(all.subrange(0, i + 1).drop_last() =~= all.subrange(0, i as int));
            assert(all.subrange(0, i + 1).last() == all[i as int]);
            assert(key@ == all[i as int]);
        }
        if !keep {
            let ghost before = out@;
            out.push(names[i].clone());
            proof {
                assert(text_bytes(out@) =~= text_bytes(before).push(all[i as int]));
            }
        }
        i += 1;
    }
    proof {
        assert(all.subrange(0, i as int) =~= all);
    }
    out
}

} // verus!
