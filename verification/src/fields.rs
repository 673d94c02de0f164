//! Encoded maps read key by key, to tell what is wrong with them.
use crate::cbor::{cbor_text, Reader};
use crate::paths::texts;
use crate::scan::{
    array_scan, id_scan, key_bytes, key_scan, lemma_array_scan, lemma_id_scan, lemma_key_scan,
    lemma_map_scan, lemma_text_faults, map_scan, refused_as, text_scan, told, Fault,
};
use crate::text::text_eq;
use crate::types::{corrupt, Error, ObjectId};
use vstd::prelude::*;

verus! {

/// A type that is encoded as a map of fields.
pub trait Fields {
    /// What follows the value of the key `k` in `s`, or what is wrong with the key or the
    /// value.
    spec fn field(k: Seq<char>, s: Seq<u8>) -> Result<Seq<u8>, Fault>;

    /// The text that tells of the first field that is not among the keys `seen`.
    spec fn missing(seen: Seq<Seq<char>>) -> Option<Seq<char>>;

    /// A value may be refused as `Invalid`.
    spec fn picky() -> bool;

    proof fn field_faults(k: Seq<char>, s: Seq<u8>)
        ensures
            !Self::picky() ==> (Self::field(k, s) matches Err(f) ==> f is Corrupt),
    ;

    /// Step over the value of the key `k`.
    fn check_field(k: &str, r: &mut Reader<'_>) -> (res: Result<(), Error>)
        ensures
            refused_as(Self::field(k@, old(r).rest()), res),
            res is Ok ==> Self::field(k@, old(r).rest()) == Ok::<Seq<u8>, Fault>(final(r).rest()),
    ;

    fn find_missing(seen: &Vec<String>) -> (res: Option<&'static str>)
        ensures
            match res {
                Some(m) => Self::missing(texts(seen@)) == Some(m@),
                None => Self::missing(texts(seen@)) is None,
            },
    ;
}

/// A type whose values can be stepped over.
pub trait Checked {
    /// What follows a value at the start of `s`, or what is wrong with it.
    spec fn scan(s: Seq<u8>) -> Result<Seq<u8>, Fault>;

    /// A value may be refused as `Invalid`.
    spec fn fussy() -> bool;

    proof fn scan_faults(s: Seq<u8>)
        ensures
            !Self::fussy() ==> (Self::scan(s) matches Err(f) ==> f is Corrupt),
    ;

    /// Step over a value.
    fn check(r: &mut Reader<'_>) -> (res: Result<(), Error>)
        ensures
            refused_as(Self::scan(old(r).rest()), res),
            res is Ok ==> Self::scan(old(r).rest()) == Ok::<Seq<u8>, Fault>(final(r).rest()),
    ;
}

/// The keys of `n` fields, after those `seen`, and what follows the fields.
pub open spec fn walk<F: Fields>(
    s: Seq<u8>,
    n: nat,
    last: Option<Seq<u8>>,
    limit: Option<(nat, Seq<char>)>,
    seen: Seq<Seq<char>>,
) -> Result<(Seq<Seq<char>>, Seq<u8>), Fault>
    decreases n,
{
    if n == 0 {
        Ok((seen, s))
    } else {
        match key_scan(s, last, limit) {
            Ok((k, t)) => match F::field(k, t) {
                Ok(u) => walk::<F>(u, (n - 1) as nat, Some(cbor_text(k)), limit, seen.push(k)),
                Err(f) => Err(f),
            },
            Err(f) => Err(f),
        }
    }
}

/// The keys of a map, and what follows it.
pub open spec fn map_walk<F: Fields>(
    s: Seq<u8>,
    limit: Option<(nat, Seq<char>)>,
) -> Result<(Seq<Seq<char>>, Seq<u8>), Fault> {
    match map_scan(s) {
        Ok((n, t)) => walk::<F>(t, n as nat, None, limit, Seq::<Seq<char>>::empty()),
        Err(f) => Err(f),
    }
}

/// What follows a map that has every field that it needs.
pub open spec fn record_scan<F: Fields>(s: Seq<u8>) -> Result<Seq<u8>, Fault> {
    match map_walk::<F>(s, None) {
        Ok((seen, t)) => match F::missing(seen) {
            Some(m) => Err(Fault::Corrupt(m)),
            None => Ok(t),
        },
        Err(f) => Err(f),
    }
}

/// What follows `n` values.
pub open spec fn values_scan<T: Checked>(s: Seq<u8>, n: nat) -> Result<Seq<u8>, Fault>
    decreases n,
{
    if n == 0 {
        Ok(s)
    } else {
        match T::scan(s) {
            Ok(t) => values_scan::<T>(t, (n - 1) as nat),
            Err(f) => Err(f),
        }
    }
}

/// What follows an array of at most `max` values. More are refused with the text
/// `too_many`.
pub open spec fn list_scan<T: Checked>(
    s: Seq<u8>,
    max: u64,
    too_many: Seq<char>,
) -> Result<Seq<u8>, Fault> {
    match array_scan(s) {
        Ok((n, t)) => if n > max {
            Err(Fault::Corrupt(too_many))
        } else {
            values_scan::<T>(t, n as nat)
        },
        Err(f) => Err(f),
    }
}

/// What is wrong with a header: what its fields tell, then bytes after them, then a field
/// that is missing. Where all fields are there, the text is that of bytes after them.
pub open spec fn header_fault<F: Fields>(
    s: Seq<u8>,
    limit: Option<(nat, Seq<char>)>,
    trailing: Seq<char>,
) -> Fault {
    match map_walk::<F>(s, limit) {
        Ok((seen, t)) => match F::missing(seen) {
            Some(m) => Fault::Corrupt(
                if t.len() == 0 {
                    m
                } else {
                    trailing
                },
            ),
            None => Fault::Corrupt(trailing),
        },
        Err(f) => f,
    }
}

proof fn lemma_walk_faults<F: Fields>(
    s: Seq<u8>,
    n: nat,
    last: Option<Seq<u8>>,
    limit: Option<(nat, Seq<char>)>,
    seen: Seq<Seq<char>>,
)
    requires
        !F::picky(),
    ensures
        walk::<F>(s, n, last, limit, seen) matches Err(f) ==> f is Corrupt,
    decreases n,
{
    if n > 0 {
        lemma_key_scan(s, last, limit);
        if let Ok((k, t)) = key_scan(s, last, limit) {
            F::field_faults(k, t);
            if let Ok(u) = F::field(k, t) {
                lemma_walk_faults::<F>(u, (n - 1) as nat, Some(cbor_text(k)), limit, seen.push(k));
            }
        }
    }
}

/// A header whose fields are never `Invalid` is refused as `Corrupt`.
pub proof fn lemma_header_faults<F: Fields>(
    s: Seq<u8>,
    limit: Option<(nat, Seq<char>)>,
    trailing: Seq<char>,
)
    requires
        !F::picky(),
    ensures
        header_fault::<F>(s, limit, trailing) is Corrupt,
{
    lemma_map_scan(s);
    if let Ok((n, t)) = map_scan(s) {
        lemma_walk_faults::<F>(t, n as nat, None, limit, Seq::<Seq<char>>::empty());
    }
}

/// A map whose fields are never `Invalid` is refused as `Corrupt`.
pub proof fn lemma_record_faults<F: Fields>(s: Seq<u8>)
    requires
        !F::picky(),
    ensures
        record_scan::<F>(s) matches Err(f) ==> f is Corrupt,
{
    lemma_map_scan(s);
    if let Ok((n, t)) = map_scan(s) {
        lemma_walk_faults::<F>(t, n as nat, None, None, Seq::<Seq<char>>::empty());
    }
}

proof fn lemma_values_faults<T: Checked>(s: Seq<u8>, n: nat)
    requires
        !T::fussy(),
    ensures
        values_scan::<T>(s, n) matches Err(f) ==> f is Corrupt,
    decreases n,
{
    if n > 0 {
        T::scan_faults(s);
        if let Ok(t) = T::scan(s) {
            lemma_values_faults::<T>(t, (n - 1) as nat);
        }
    }
}

/// A list whose values are never `Invalid` is refused as `Corrupt`.
pub proof fn lemma_list_faults<T: Checked>(s: Seq<u8>, max: u64, too_many: Seq<char>)
    requires
        !T::fussy(),
    ensures
        list_scan::<T>(s, max, too_many) matches Err(f) ==> f is Corrupt,
{
    lemma_array_scan(s);
    if let Ok((n, t)) = array_scan(s) {
        lemma_values_faults::<T>(t, n as nat);
    }
}

/// Whether a text is among some.
pub(crate) fn has_text(seen: &Vec<String>, key: &str) -> (r: bool)
    ensures
        r == texts(seen@).contains(key@),
{
    let mut i: usize = 0;
    while i < seen.len()
        invariant
            i <= seen@.len(),
            forall|j: int| 0 <= j < i ==> texts(seen@)[j] != key@,
        decreases seen@.len() - i,
    {
        if text_eq(seen[i].as_str(), key) {
            assert(texts(seen@)[i as int] == key@);
            return true;
        }
        assert(texts(seen@)[i as int] == seen@[i as int]@);
        i += 1;
    }
    false
}

/// A limit as a value.
pub open spec fn limit_value(limit: Option<(usize, &str)>) -> Option<(nat, Seq<char>)> {
    match limit {
        Some((max, what)) => Some((max as nat, what@)),
        None => None,
    }
}

/// Step over a map; the keys that it has.
pub(crate) fn check_map<F: Fields>(r: &mut Reader<'_>, limit: Option<(usize, &str)>) -> (res: Result<
    Vec<String>,
    Error,
>)
    ensures
        refused_as(map_walk::<F>(old(r).rest(), limit_value(limit)), res),
        res matches Ok(seen) ==> map_walk::<F>(old(r).rest(), limit_value(limit)) == Ok::<
            (Seq<Seq<char>>, Seq<u8>),
            Fault,
        >((texts(seen@), final(r).rest())),
{
    let ghost lim = limit_value(limit);
    let n = r.map()?;
    let ghost body = r.rest();
    let mut last: Option<Vec<u8>> = None;
    let mut seen: Vec<String> = Vec::new();
    let mut i: u64 = 0;
    assert(texts(seen@) =~= Seq::<Seq<char>>::empty());
    while i < n
        invariant
            i <= n,
            lim == limit_value(limit),
            walk::<F>(body, n as nat, None, lim, Seq::<Seq<char>>::empty()) == walk::<F>(
                r.rest(),
                (n - i) as nat,
                key_bytes(last),
                lim,
                texts(seen@),
            ),
            map_walk::<F>(old(r).rest(), lim) == walk::<F>(
                body,
                n as nat,
                None,
                lim,
                Seq::<Seq<char>>::empty(),
            ),
        decreases n - i,
    {
        let ghost before = seen@;
        let k = match limit {
            Some((max, what)) => r.text_map_key_bounded(&mut last, max, what)?,
            None => r.text_map_key(&mut last)?,
        };
        F::check_field(k.as_str(), r)?;
        let ghost key = k@;
        seen.push(k);
        assert(texts(seen@) =~= texts(before).push(key));
        i += 1;
    }
    Ok(seen)
}

/// Step over a map that has every field that it needs.
pub(crate) fn check_record<F: Fields>(r: &mut Reader<'_>) -> (res: Result<(), Error>)
    ensures
        refused_as(record_scan::<F>(old(r).rest()), res),
        res is Ok ==> record_scan::<F>(old(r).rest()) == Ok::<Seq<u8>, Fault>(final(r).rest()),
{
    let seen = check_map::<F>(r, None)?;
    match F::find_missing(&seen) {
        Some(m) => Err(corrupt(m)),
        None => Ok(()),
    }
}

/// Step over an array of at most `max` values.
pub(crate) fn check_list<T: Checked>(r: &mut Reader<'_>, max: u64, too_many: &str) -> (res: Result<
    (),
    Error,
>)
    ensures
        refused_as(list_scan::<T>(old(r).rest(), max, too_many@), res),
        res is Ok ==> list_scan::<T>(old(r).rest(), max, too_many@) == Ok::<Seq<u8>, Fault>(
            final(r).rest(),
        ),
{
    let n = r.array()?;
    if n > max {
        return Err(corrupt(too_many));
    }
    let ghost body = r.rest();
    let mut i: u64 = 0;
    while i < n
        invariant
            i <= n,
            list_scan::<T>(old(r).rest(), max, too_many@) == values_scan::<T>(body, n as nat),
            values_scan::<T>(body, n as nat) == values_scan::<T>(r.rest(), (n - i) as nat),
        decreases n - i,
    {
        T::check(r)?;
        i += 1;
    }
    Ok(())
}

/// What is wrong with a header.
pub(crate) fn header_error<F: Fields>(
    header: &[u8],
    limit: Option<(usize, &str)>,
    trailing: &str,
) -> (e: Error)
    ensures
        told(e, header_fault::<F>(header@, limit_value(limit), trailing@)),
{
    let mut r = Reader::new(header);
    match check_map::<F>(&mut r, limit) {
        Ok(seen) => {
            if !r.at_end() {
                return corrupt(trailing);
            }
            match F::find_missing(&seen) {
                Some(m) => corrupt(m),
                None => corrupt(trailing),
            }
        },
        Err(e) => e,
    }
}

impl Checked for ObjectId {
    open spec fn scan(s: Seq<u8>) -> Result<Seq<u8>, Fault> {
        id_scan(s)
    }

    open spec fn fussy() -> bool {
        false
    }

    proof fn scan_faults(s: Seq<u8>) {
        lemma_id_scan(s);
    }

    fn check(r: &mut Reader<'_>) -> (res: Result<(), Error>) {
        r.bstr32()?;
        Ok(())
    }
}

impl Checked for String {
    open spec fn scan(s: Seq<u8>) -> Result<Seq<u8>, Fault> {
        rest_of(text_scan(s, None))
    }

    open spec fn fussy() -> bool {
        false
    }

    proof fn scan_faults(s: Seq<u8>) {
        lemma_text_faults(s, None);
    }

    fn check(r: &mut Reader<'_>) -> (res: Result<(), Error>) {
        r.text()?;
        Ok(())
    }
}

/// What follows, whatever was read.
pub open spec fn rest_of<V>(r: Result<(V, Seq<u8>), Fault>) -> Result<Seq<u8>, Fault> {
    match r {
        Ok((_, t)) => Ok(t),
        Err(f) => Err(f),
    }
}

} // verus!
