//! How cache metadata is stored: the fields of an LRU entry's hash in the
//! metadata store, and the sixteen bytes of an entry in the embedded database.
use vstd::prelude::*;

use crate::cache::{redis_fields_spec, CacheEntry, LruCacheMetadata};
use crate::decimal::{decimal, signed_decimal};
use crate::decimal::{
    lemma_parse_i64_of_decimal, lemma_parse_u64_of_decimal, parse_i64, parse_i64_spec, parse_u64,
    parse_u64_spec,
};
use crate::util::{
    be_bytes, from_be, ivec_as_bytes, ivec_bytes, ivec_from_vec, ivec_subslice, law_from_be_of_be_bytes,
    u64_from_be, u64_to_array,
};

verus! {

// ---------------------------------------------------------------------------
// The metadata hash of an LRU entry.

/// The value of the first field called `name`.
pub open spec fn field_value(fields: Seq<(Seq<char>, Seq<char>)>, name: Seq<char>) -> Option<Seq<char>>
    decreases fields.len(),
{
    if fields.len() == 0 {
        None
    } else if fields[0].0 == name {
        Some(fields[0].1)
    } else {
        field_value(fields.drop_first(), name)
    }
}

/// A number field: its value parsed, 0 when it is missing or does not parse.
pub open spec fn u64_field(fields: Seq<(Seq<char>, Seq<char>)>, name: Seq<char>) -> u64 {
    match field_value(fields, name) {
        Some(v) => match parse_u64_spec(v) {
            Some(n) => n,
            None => 0,
        },
        None => 0,
    }
}

pub open spec fn i64_field(fields: Seq<(Seq<char>, Seq<char>)>, name: Seq<char>) -> i64 {
    match field_value(fields, name) {
        Some(v) => match parse_i64_spec(v) {
            Some(n) => n,
            None => 0,
        },
        None => 0,
    }
}

/// The entry that a metadata hash describes: none for an empty hash (the key
/// is not cached); otherwise its path (empty when missing), size and access
/// time (0 when missing or unreadable).
pub open spec fn entry_from_fields_spec(fields: Seq<(Seq<char>, Seq<char>)>) -> Option<(Seq<char>, u64, i64)> {
    if fields.len() == 0 {
        None
    } else {
        Some((
            match field_value(fields, "path"@) {
                Some(p) => p,
                None => Seq::empty(),
            },
            u64_field(fields, "size"@),
            i64_field(fields, "atime"@),
        ))
    }
}

pub open spec fn fields_view(fields: Seq<(String, String)>) -> Seq<(Seq<char>, Seq<char>)> {
    fields.map_values(|p: (String, String)| (p.0@, p.1@))
}

fn find_field<'a>(fields: &'a Vec<(String, String)>, name: &String) -> (r: Option<&'a String>)
    ensures
        match r {
            Some(v) => field_value(fields_view(fields@), name@) == Some(v@),
            None => field_value(fields_view(fields@), name@) == None::<Seq<char>>,
        },
{
    let ghost f = fields_view(fields@);
    let mut i: usize = 0;
    assert(f.skip(0) =~= f);
    while i < fields.len()
        invariant
            f == fields_view(fields@),
            i <= fields.len(),
            field_value(f, name@) == field_value(f.skip(i as int), name@),
        decreases fields.len() - i,
    {
        assert(f.skip(i as int)[0] == f[i as int]);
        if fields[i].0 == *name {
            return Some(&fields[i].1);
        }
        assert(f.skip(i as int).drop_first() =~= f.skip(i + 1));
        i = i + 1;
    }
    None
}

/// Reads an LRU cache entry from the fields and values of its metadata hash.
pub fn cache_entry_from_fields(fields: &Vec<(String, String)>) -> (r: Option<CacheEntry<LruCacheMetadata, String, ()>>)
    ensures
        match r {
            Some(e) => entry_from_fields_spec(fields_view(fields@)) == Some((e.key@, e.metadata.size, e.metadata.atime)),
            None => entry_from_fields_spec(fields_view(fields@)) == None::<(Seq<char>, u64, i64)>,
        },
{
    if fields.len() == 0 {
        return None;
    }
    let atime: i64 = match find_field(fields, &String::from_str("atime")) {
        Some(v) => match parse_i64(v.as_str()) {
            Some(n) => n,
            None => 0,
        },
        None => 0,
    };
    let size: u64 = match find_field(fields, &String::from_str("size")) {
        Some(v) => match parse_u64(v.as_str()) {
            Some(n) => n,
            None => 0,
        },
        None => 0,
    };
    let key = match find_field(fields, &String::from_str("path")) {
        Some(v) => v.clone(),
        None => String::new(),
    };
    Some(CacheEntry { metadata: LruCacheMetadata { atime, size }, key, value: () })
}

/// The metadata hash written for an entry reads back as that entry.
pub proof fn law_entry_fields_round_trip(key: Seq<char>, size: u64, atime: i64)
    ensures
        entry_from_fields_spec(redis_fields_spec(key, size, atime)) == Some((key, size, atime)),
{
    reveal_strlit("path");
    reveal_strlit("size");
    reveal_strlit("atime");
    let f = redis_fields_spec(key, size, atime);
    let f1 = f.drop_first();
    let f2 = f1.drop_first();
    assert(f[0] == ("path"@, key));
    assert(f1[0] == ("size"@, decimal(size as nat)));
    assert(f2[0] == ("atime"@, signed_decimal(atime as int)));
    assert("size"@[0] != "path"@[0]);
    assert("atime"@[0] != "path"@[0]);
    assert("atime"@[0] != "size"@[0]);
    assert(field_value(f, "path"@) == Some(key));
    assert(field_value(f, "size"@) == field_value(f1, "size"@));
    assert(field_value(f1, "size"@) == Some(decimal(size as nat)));
    assert(field_value(f, "atime"@) == field_value(f1, "atime"@));
    assert(field_value(f1, "atime"@) == field_value(f2, "atime"@));
    assert(field_value(f2, "atime"@) == Some(signed_decimal(atime as int)));
    lemma_parse_u64_of_decimal(size);
    lemma_parse_i64_of_decimal(atime);
}

/// Where every field called `name` holds `v` and one is there, that is its value.
proof fn lemma_field_value_of(fields: Seq<(Seq<char>, Seq<char>)>, name: Seq<char>, v: Seq<char>)
    requires
        exists|i: int| 0 <= i < fields.len() && fields[i].0 == name,
        forall|i: int| 0 <= i < fields.len() && fields[i].0 == name ==> fields[i].1 == v,
    ensures
        field_value(fields, name) == Some(v),
    decreases fields.len(),
{
    if fields[0].0 != name {
        let t = fields.drop_first();
        let i = choose|i: int| 0 <= i < fields.len() && fields[i].0 == name;
        assert(t[i - 1] == fields[i]);
        assert forall|j: int| 0 <= j < t.len() && t[j].0 == name implies t[j].1 == v by {
            assert(t[j] == fields[j + 1]);
        }
        lemma_field_value_of(t, name, v);
    }
}

/// A metadata hash reads back as the entry written, whatever order its
/// fields come back in: any sequence holding exactly the written fields
/// (each field name once in the hash) gives the entry.
pub proof fn law_entry_fields_any_order(fields: Seq<(Seq<char>, Seq<char>)>, key: Seq<char>, size: u64, atime: i64)
    requires
        forall|p: (Seq<char>, Seq<char>)| fields.contains(p) <==> redis_fields_spec(key, size, atime).contains(p),
    ensures
        entry_from_fields_spec(fields) == Some((key, size, atime)),
{
    reveal_strlit("path");
    reveal_strlit("size");
    reveal_strlit("atime");
    let w = redis_fields_spec(key, size, atime);
    assert(w[0] == ("path"@, key));
    assert(w[1] == ("size"@, decimal(size as nat)));
    assert(w[2] == ("atime"@, signed_decimal(atime as int)));
    assert("size"@[0] != "path"@[0]);
    assert("atime"@[0] != "path"@[0]);
    assert("atime"@[0] != "size"@[0]);
    assert(w.contains(w[0]) && w.contains(w[1]) && w.contains(w[2]));
    assert forall|p: (Seq<char>, Seq<char>)| w.contains(p) implies p == w[0] || p == w[1] || p == w[2] by {
        let i = choose|i: int| 0 <= i < w.len() && w[i] == p;
    }
    let names = seq!["path"@, "size"@, "atime"@];
    let vals = seq![key, decimal(size as nat), signed_decimal(atime as int)];
    assert forall|k: int| 0 <= k < 3 implies field_value(fields, #[trigger] names[k]) == Some(vals[k]) by {
        assert(fields.contains(w[k]));
        let i = choose|i: int| 0 <= i < fields.len() && fields[i] == w[k];
        assert(fields[i].0 == names[k]);
        assert forall|j: int| 0 <= j < fields.len() && fields[j].0 == names[k] implies fields[j].1 == vals[k] by {
            assert(fields.contains(fields[j]));
        }
        lemma_field_value_of(fields, names[k], vals[k]);
    }
    assert(field_value(fields, names[0]) == Some(vals[0]));
    assert(field_value(fields, names[1]) == Some(vals[1]));
    assert(field_value(fields, names[2]) == Some(vals[2]));
    lemma_parse_u64_of_decimal(size);
    lemma_parse_i64_of_decimal(atime);
}

// ---------------------------------------------------------------------------
// Metadata in the embedded database.

/// The access time and size of a cached entry, stored as sixteen bytes.
pub struct SledMetadata {
    pub atime: i64,
    pub size: u64,
}

/// The stored bytes: the access time then the size, each big-endian.
pub open spec fn metadata_bytes(atime: i64, size: u64) -> Seq<u8> {
    be_bytes(atime as u64) + be_bytes(size)
}

/// The access time and size that sixteen stored bytes hold.
pub open spec fn metadata_of_bytes(b: Seq<u8>) -> (i64, u64) {
    (from_be(b.subrange(0, 8)) as i64, from_be(b.subrange(8, 16)))
}

impl SledMetadata {
    /// Reads the metadata from its stored bytes: the access time from the
    /// first eight and the size from the next eight. Shorter input is refused
    /// by `IVec::subslice`, so at least sixteen bytes are required.
    pub fn from_ivec(vec: sled::IVec) -> (r: Self)
        requires
            ivec_bytes(vec).len() >= 16,
        ensures
            (r.atime, r.size) == metadata_of_bytes(ivec_bytes(vec)),
    {
        let a = ivec_subslice(&vec, 0, 8);
        let s = ivec_subslice(&vec, 8, 8);
        let atime = u64_from_be(ivec_as_bytes(&a)) as i64;
        let size = u64_from_be(ivec_as_bytes(&s));
        SledMetadata { atime, size }
    }

    /// Reads the metadata from its stored bytes; `None` when there are fewer
    /// than sixteen.
    pub fn from_ivec_checked(vec: sled::IVec) -> (r: Option<Self>)
        ensures
            match r {
                Some(m) => ivec_bytes(vec).len() >= 16 && (m.atime, m.size) == metadata_of_bytes(ivec_bytes(vec)),
                None => ivec_bytes(vec).len() < 16,
            },
    {
        if ivec_as_bytes(&vec).len() >= 16 {
            Some(Self::from_ivec(vec))
        } else {
            None
        }
    }

    /// The stored bytes of the metadata.
    pub fn into_ivec(self) -> (r: sled::IVec)
        ensures
            ivec_bytes(r) == metadata_bytes(self.atime, self.size),
    {
        let a = u64_to_array(self.atime as u64);
        let s = u64_to_array(self.size);
        let mut v: Vec<u8> = Vec::new();
        let mut i: usize = 0;
        while i < 8
            invariant
                i <= 8,
                a@ == be_bytes(self.atime as u64),
                v@ == a@.take(i as int),
            decreases 8 - i,
        {
            v.push(a[i]);
            assert(a@.take(i + 1) =~= a@.take(i as int).push(a@[i as int]));
            i = i + 1;
        }
        let mut j: usize = 0;
        while j < 8
            invariant
                j <= 8,
                a@ == be_bytes(self.atime as u64),
                s@ == be_bytes(self.size),
                v@ == a@ + s@.take(j as int),
            decreases 8 - j,
        {
            v.push(s[j]);
            assert(s@.take(j + 1) =~= s@.take(j as int).push(s@[j as int]));
            assert(a@ + s@.take(j + 1) =~= (a@ + s@.take(j as int)).push(s@[j as int]));
            j = j + 1;
        }
        assert(a@.take(8) =~= a@);
        assert(s@.take(8) =~= s@);
        ivec_from_vec(v)
    }
}

/// Stored metadata reads back as what was stored.
pub proof fn law_metadata_round_trip(atime: i64, size: u64)
    ensures
        metadata_of_bytes(metadata_bytes(atime, size)) == (atime, size),
{
    let b = metadata_bytes(atime, size);
    assert(b.subrange(0, 8) =~= be_bytes(atime as u64));
    assert(b.subrange(8, 16) =~= be_bytes(size));
    law_from_be_of_be_bytes(atime as u64);
    law_from_be_of_be_bytes(size);
    assert((atime as u64) as i64 == atime) by (bit_vector);
}

// ---------------------------------------------------------------------------
// The running total of an LRU cache in the embedded database.

/// The stored total once an entry of `removed` bytes is replaced or dropped:
/// the total less its size. `None` when the total is below that size, which
/// a total that counts the entry cannot be.
pub fn sled_total_after_removal(total: u64, removed: u64) -> (r: Option<u64>)
    ensures
        r == if removed <= total { Some((total - removed) as u64) } else { None::<u64> },
{
    if removed <= total {
        Some(total - removed)
    } else {
        None
    }
}

} // verus!
