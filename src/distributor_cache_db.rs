use vstd::prelude::*;

verus! {

/// Why the modification time of a file could not be read.
#[derive(Debug, Clone, PartialEq, Eq)]
pub enum QueryMetaError {
    IoError(String),
}

/// The records of the cache as a map from path text to the last synchronized
/// modification time; a later record for the same path overrides an earlier one.
pub open spec fn records_map(records: Seq<(String, u128)>) -> Map<Seq<char>, u128>
    decreases records.len(),
{
    if records.len() == 0 {
        Map::empty()
    } else {
        records_map(records.drop_last()).insert(records.last().0@, records.last().1)
    }
}

/// A file is stale when it has no record, when its modification time could not
/// be read, or when it was modified after the recorded time.
pub open spec fn is_stale(
    cache: Map<Seq<char>, u128>,
    path: Seq<char>,
    modified: Result<u128, QueryMetaError>,
) -> bool {
    match modified {
        Ok(t) => !cache.contains_key(path) || t > cache[path],
        Err(_) => true,
    }
}

/// The cache after recording `path` with its modification time; an unreadable
/// time leaves the cache as it was.
pub open spec fn recorded(
    cache: Map<Seq<char>, u128>,
    path: Seq<char>,
    modified: Result<u128, QueryMetaError>,
) -> Map<Seq<char>, u128> {
    match modified {
        Ok(t) => cache.insert(path, t),
        Err(_) => cache,
    }
}

/// The decimal digit `d` (below ten) as a character.
pub open spec fn digit_char(d: nat) -> char {
    seq!['0', '1', '2', '3', '4', '5', '6', '7', '8', '9'][d as int]
}

/// `n` written in decimal, without leading zeros.
pub open spec fn decimal_text(n: nat) -> Seq<char>
    decreases n,
{
    if n < 10 {
        seq![digit_char(n)]
    } else {
        decimal_text(n / 10).push(digit_char(n % 10))
    }
}

pub open spec fn is_decimal_digit(c: char) -> bool {
    '0' <= c && c <= '9'
}

/// The value of a string of decimal digits.
pub open spec fn digits_value(s: Seq<char>) -> nat
    decreases s.len(),
{
    if s.len() == 0 {
        0
    } else {
        digits_value(s.drop_last()) * 10 + (s.last() as nat - '0' as nat) as nat
    }
}

/// What `u128`'s `FromStr` accepts: an optional `+` followed by one or more
/// decimal digits whose value fits.
pub open spec fn parsed_u128(s: Seq<char>) -> Option<u128> {
    let digits = if s.len() > 0 && s[0] == '+' {
        s.drop_first()
    } else {
        s
    };
    if digits.len() > 0 && (forall|i: int| 0 <= i < digits.len() ==> is_decimal_digit(#[trigger] digits[i]))
        && digits_value(digits) <= u128::MAX {
        Some(digits_value(digits) as u128)
    } else {
        None
    }
}

/// Relies on `ToString` for `u128`, which writes the number in decimal.
#[verifier::external_body]
fn timestamp_text(t: u128) -> (r: String)
    ensures
        r@ == decimal_text(t as nat),
{
    t.to_string()
}

/// Relies on `FromStr` for `u128` (`str::parse`), as its documentation states.
#[verifier::external_body]
fn parse_timestamp(s: &str) -> (r: Option<u128>)
    ensures
        r == parsed_u128(s@),
{
    s.parse::<u128>().ok()
}

/// The persisted form of a cache: its records as (path, decimal time) text
/// pairs and the path it was loaded from, as `bincode::serialize` writes them.
pub uninterp spec fn cache_encoding(records: Seq<(Seq<char>, Seq<char>)>, loaded_path: Seq<char>) -> Seq<u8>;

/// What `bincode::deserialize` reads from `bytes` as record pairs and a path,
/// or `None` when it rejects them.
pub uninterp spec fn cache_decoding(bytes: Seq<u8>) -> Option<(Seq<(Seq<char>, Seq<char>)>, Seq<char>)>;

#[verifier::external_type_specification]
#[verifier::external_body]
pub struct ExBincodeErrorKind(bincode::ErrorKind);

pub open spec fn pair_texts(v: Seq<(String, String)>) -> Seq<(Seq<char>, Seq<char>)> {
    v.map_values(|p: (String, String)| (p.0@, p.1@))
}

/// Relies on `bincode::serialize`: the bytes depend on the values alone; with
/// its unbounded default size limit it cannot fail on strings and vectors;
/// and, as the crate documents, `bincode::deserialize` reads the bytes back
/// as the same values.
#[verifier::external_body]
fn encode_records(records: &Vec<(String, String)>, loaded_path: &String) -> (r: Result<Vec<u8>, bincode::Error>)
    ensures
        r is Ok,
        r matches Ok(bytes) ==> bytes@ == cache_encoding(pair_texts(records@), loaded_path@),
        r matches Ok(bytes) ==> cache_decoding(bytes@) == Some((pair_texts(records@), loaded_path@)),
{
    bincode::serialize(&(records, loaded_path))
}

/// Relies on `bincode::deserialize`: the outcome depends on the bytes alone.
#[verifier::external_body]
fn decode_records(bytes: &[u8]) -> (r: Result<(Vec<(String, String)>, String), bincode::Error>)
    ensures
        match r {
            Ok(decoded) => cache_decoding(bytes@) == Some((pair_texts(decoded.0@), decoded.1@)),
            Err(_) => cache_decoding(bytes@) is None,
        },
{
    bincode::deserialize(bytes)
}

/// Every record's time is a decimal number that fits.
pub open spec fn all_times_parse(records: Seq<(Seq<char>, Seq<char>)>) -> bool {
    forall|i: int| 0 <= i < records.len() ==> (#[trigger] parsed_u128(records[i].1)) is Some
}

/// The map that decoded records describe; a later record for a path wins.
pub open spec fn decoded_map(records: Seq<(Seq<char>, Seq<char>)>) -> Map<Seq<char>, u128>
    decreases records.len(),
{
    if records.len() == 0 {
        Map::empty()
    } else {
        let t = match parsed_u128(records.last().1) {
            Some(t) => t,
            None => 0,
        };
        decoded_map(records.drop_last()).insert(records.last().0, t)
    }
}

/// The records in their stored order, with each time in decimal.
pub open spec fn record_texts(records: Seq<(Seq<char>, u128)>) -> Seq<(Seq<char>, Seq<char>)> {
    records.map_values(|r: (Seq<char>, u128)| (r.0, decimal_text(r.1 as nat)))
}

/// A persisted mapping from file path to the modification time (milliseconds
/// since the Unix epoch) at which it was last distributed.
#[derive(Debug)]
pub struct FileDistributorCache {
    files_touch_time_record: Vec<(String, u128)>,
    loaded_path: String,
}

proof fn lemma_records_last(records: Seq<(String, u128)>, key: Seq<char>, i: int)
    requires
        0 <= i < records.len(),
        records[i].0@ == key,
        forall|j: int| i < j < records.len() ==> records[j].0@ != key,
    ensures
        records_map(records).contains_key(key),
        records_map(records)[key] == records[i].1,
    decreases records.len(),
{
    if i < records.len() - 1 {
        lemma_records_last(records.drop_last(), key, i);
    }
}

proof fn lemma_records_absent(records: Seq<(String, u128)>, key: Seq<char>)
    requires
        forall|j: int| 0 <= j < records.len() ==> records[j].0@ != key,
    ensures
        !records_map(records).contains_key(key),
    decreases records.len(),
{
    if records.len() > 0 {
        lemma_records_absent(records.drop_last(), key);
    }
}

proof fn lemma_records_set_last(records: Seq<(String, u128)>, i: int, entry: (String, u128))
    requires
        0 <= i < records.len(),
        records[i].0@ == entry.0@,
        forall|j: int| i < j < records.len() ==> records[j].0@ != entry.0@,
    ensures
        records_map(records.update(i, entry)) == records_map(records).insert(entry.0@, entry.1),
    decreases records.len(),
{
    let updated = records.update(i, entry);
    if i == records.len() - 1 {
        assert(updated.drop_last() =~= records.drop_last());
        assert(records_map(updated) =~= records_map(records).insert(entry.0@, entry.1));
    } else {
        lemma_records_set_last(records.drop_last(), i, entry);
        assert(updated.drop_last() =~= records.drop_last().update(i, entry));
        assert(records_map(updated) =~= records_map(records).insert(entry.0@, entry.1));
    }
}

impl FileDistributorCache {
    pub closed spec fn view(&self) -> Map<Seq<char>, u128> {
        records_map(self.files_touch_time_record@)
    }

    pub closed spec fn spec_loaded_path(&self) -> Seq<char> {
        self.loaded_path@
    }

    /// The records in their stored order.
    pub closed spec fn record_list(&self) -> Seq<(Seq<char>, u128)> {
        self.files_touch_time_record@.map_values(|r: (String, u128)| (r.0@, r.1))
    }

    /// The persisted form of this cache.
    pub fn to_bytes(&self) -> (r: Option<Vec<u8>>)
        ensures
            r matches Some(bytes) && bytes@ == cache_encoding(record_texts(self.record_list()), self.spec_loaded_path()),
            r matches Some(bytes) ==> cache_decoding(bytes@) == Some(
                (record_texts(self.record_list()), self.spec_loaded_path()),
            ),
    {
        let mut pairs: Vec<(String, String)> = Vec::new();
        let mut i: usize = 0;
        while i < self.files_touch_time_record.len()
            invariant
                i <= self.files_touch_time_record@.len(),
                pair_texts(pairs@) == record_texts(self.record_list().take(i as int)),
            decreases self.files_touch_time_record@.len() - i,
        {
            let (path, time) = (&self.files_touch_time_record[i].0, self.files_touch_time_record[i].1);
            let ghost before = pairs@;
            pairs.push((path.clone(), timestamp_text(time)));
            assert(pair_texts(pairs@) =~= pair_texts(before).push((path@, decimal_text(time as nat))));
            assert(record_texts(self.record_list().take(i + 1)) =~= record_texts(self.record_list().take(i as int)).push(
                (path@, decimal_text(time as nat)),
            ));
            i = i + 1;
        }
        assert(self.record_list().take(i as int) =~= self.record_list());
        match encode_records(&pairs, &self.loaded_path) {
            Ok(bytes) => Some(bytes),
            Err(_) => None,
        }
    }

    /// Reads a persisted cache. Bytes that do not decode, or that hold a time
    /// that is not a decimal number, give an empty cache: every file is then
    /// stale, which is safe.
    pub fn from_bytes(bytes: &[u8], loaded_path: &str) -> (r: Self)
        ensures
            r.spec_loaded_path() == loaded_path@,
            r@ == (match cache_decoding(bytes@) {
                Some(decoded) => if all_times_parse(decoded.0) {
                    decoded_map(decoded.0)
                } else {
                    Map::empty()
                },
                None => Map::empty(),
            }),
    {
        let mut cache = FileDistributorCache::empty(loaded_path);
        match decode_records(bytes) {
            Err(_) => cache,
            Ok((pairs, _)) => {
                let ghost records = pair_texts(pairs@);
                let mut i: usize = 0;
                while i < pairs.len()
                    invariant
                        i <= pairs@.len(),
                        records == pair_texts(pairs@),
                        cache_decoding(bytes@) matches Some(decoded) && decoded.0 == records,
                        cache.spec_loaded_path() == loaded_path@,
                        all_times_parse(records.take(i as int)),
                        cache@ == decoded_map(records.take(i as int)),
                    decreases pairs@.len() - i,
                {
                    let ghost prefix = records.take(i + 1);
                    assert(prefix.drop_last() =~= records.take(i as int));
                    assert(prefix.last() == (pairs@[i as int].0@, pairs@[i as int].1@));
                    match parse_timestamp(pairs[i].1.as_str()) {
                        None => {
                            assert(!all_times_parse(records)) by {
                                assert(records[i as int] == prefix.last());
                                assert(records[i as int].1 == pairs@[i as int].1@);
                                assert(parsed_u128(records[i as int].1) is None);
                            }
                            return FileDistributorCache::empty(loaded_path);
                        },
                        Some(t) => {
                            cache.update_file_record(pairs[i].0.as_str(), &Ok(t));
                            assert forall|k: int| 0 <= k < prefix.len() implies (#[trigger] parsed_u128(
                                prefix[k].1,
                            )) is Some by {
                                if k < i {
                                    assert(prefix[k] == records.take(i as int)[k]);
                                }
                            }
                        },
                    }
                    i = i + 1;
                }
                assert(records.take(i as int) =~= records);
                cache
            },
        }
    }

    /// An empty cache that will be persisted at `loaded_path`.
    pub fn empty(loaded_path: &str) -> (r: Self)
        ensures
            r@ == Map::<Seq<char>, u128>::empty(),
            r.spec_loaded_path() == loaded_path@,
    {
        let r = FileDistributorCache { files_touch_time_record: Vec::new(), loaded_path: loaded_path.to_owned() };
        assert(r@ =~= Map::<Seq<char>, u128>::empty());
        r
    }

    /// Where this cache is persisted.
    pub fn loaded_path(&self) -> (r: &str)
        ensures
            r@ == self.spec_loaded_path(),
    {
        self.loaded_path.as_str()
    }

    /// Index of the last record for `file_path`, if any.
    fn find_record(&self, file_path: &str) -> (r: Option<usize>)
        ensures
            match r {
                Some(i) => {
                    &&& i < self.files_touch_time_record@.len()
                    &&& self.files_touch_time_record@[i as int].0@ == file_path@
                    &&& forall|j: int|
                        i < j < self.files_touch_time_record@.len()
                            ==> self.files_touch_time_record@[j].0@ != file_path@
                },
                None => forall|j: int|
                    0 <= j < self.files_touch_time_record@.len()
                        ==> self.files_touch_time_record@[j].0@ != file_path@,
            },
    {
        let key = file_path.to_owned();
        let mut i: usize = self.files_touch_time_record.len();
        while i > 0
            invariant
                i <= self.files_touch_time_record@.len(),
                key@ == file_path@,
                forall|j: int|
                    i <= j < self.files_touch_time_record@.len()
                        ==> self.files_touch_time_record@[j].0@ != file_path@,
            decreases i,
        {
            i = i - 1;
            if self.files_touch_time_record[i].0 == key {
                return Some(i);
            }
        }
        None
    }

    /// The recorded modification time of `file_path`, if there is one.
    pub fn get_file_record(&self, file_path: &str) -> (r: Option<u128>)
        ensures
            r == (if self@.contains_key(file_path@) {
                Some(self@[file_path@])
            } else {
                None::<u128>
            }),
    {
        match self.find_record(file_path) {
            Some(i) => {
                proof {
                    lemma_records_last(self.files_touch_time_record@, file_path@, i as int);
                }
                Some(self.files_touch_time_record[i].1)
            },
            None => {
                proof {
                    lemma_records_absent(self.files_touch_time_record@, file_path@);
                }
                None
            },
        }
    }

    /// Records `modified` as the last synchronized time of `file_path`;
    /// an unreadable modification time leaves the cache unchanged.
    pub fn update_file_record(&mut self, file_path: &str, modified: &Result<u128, QueryMetaError>)
        ensures
            final(self)@ == recorded(old(self)@, file_path@, *modified),
            final(self).spec_loaded_path() == old(self).spec_loaded_path(),
    {
        if let Ok(timestamp) = modified {
            let entry = (file_path.to_owned(), *timestamp);
            match self.find_record(file_path) {
                Some(i) => {
                    proof {
                        lemma_records_set_last(self.files_touch_time_record@, i as int, entry);
                    }
                    self.files_touch_time_record.set(i, entry);
                },
                None => {
                    let ghost before = self.files_touch_time_record@;
                    self.files_touch_time_record.push(entry);
                    assert(self.files_touch_time_record@.drop_last() =~= before);
                },
            }
        }
    }

    /// Whether `file_path` must be distributed again, given its current
    /// modification time.
    pub fn is_file_outdated(&self, file_path: &str, modified: &Result<u128, QueryMetaError>) -> (r: bool)
        ensures
            r == is_stale(self@, file_path@, *modified),
    {
        if let Some(distribute_time) = self.get_file_record(file_path) {
            if let Ok(last_change) = modified {
                return *last_change > distribute_time;
            }
        }
        true
    }

    /// Whether the cache holds no record.
    pub fn is_empty(&self) -> (r: bool)
        ensures
            r == (self@.dom().len() == 0),
    {
        proof {
            lemma_records_finite(self.files_touch_time_record@);
        }
        if self.files_touch_time_record.len() == 0 {
            assert(self@ =~= Map::<Seq<char>, u128>::empty());
            true
        } else {
            let ghost records = self.files_touch_time_record@;
            assert(self@.contains_key(records.last().0@));
            false
        }
    }

    /// Drops every record; the cache stays bound to the same path.
    pub fn clear_records(&mut self)
        ensures
            final(self)@ == Map::<Seq<char>, u128>::empty(),
            final(self).spec_loaded_path() == old(self).spec_loaded_path(),
    {
        self.files_touch_time_record.clear();
        assert(self@ =~= Map::<Seq<char>, u128>::empty());
    }
}

proof fn lemma_records_finite(records: Seq<(String, u128)>)
    ensures
        records_map(records).dom().finite(),
        records.len() == 0 ==> records_map(records).dom().len() == 0,
        records.len() > 0 ==> records_map(records).dom().len() > 0,
    decreases records.len(),
{
    if records.len() > 0 {
        lemma_records_finite(records.drop_last());
        let m = records_map(records.drop_last());
        assert(records_map(records).dom() =~= m.dom().insert(records.last().0@));
    } else {
        assert(records_map(records).dom() =~= Set::<Seq<char>>::empty());
    }
}

proof fn lemma_digit_char(d: nat)
    requires
        d < 10,
    ensures
        is_decimal_digit(digit_char(d)),
        digit_char(d) as nat - '0' as nat == d,
{
    let digits = seq!['0', '1', '2', '3', '4', '5', '6', '7', '8', '9'];
    assert(digits[0] == '0' && digits[1] == '1' && digits[2] == '2' && digits[3] == '3' && digits[4] == '4');
    assert(digits[5] == '5' && digits[6] == '6' && digits[7] == '7' && digits[8] == '8' && digits[9] == '9');
}

proof fn lemma_decimal_text_digits(n: nat)
    ensures
        decimal_text(n).len() > 0,
        forall|i: int| 0 <= i < decimal_text(n).len() ==> is_decimal_digit(#[trigger] decimal_text(n)[i]),
        digits_value(decimal_text(n)) == n,
    decreases n,
{
    if n < 10 {
        lemma_digit_char(n);
        assert(decimal_text(n).drop_last() =~= Seq::<char>::empty());
        assert(digits_value(decimal_text(n)) == digits_value(Seq::<char>::empty()) * 10 + (n as int));
    } else {
        lemma_decimal_text_digits(n / 10);
        lemma_digit_char(n % 10);
        let text = decimal_text(n);
        assert(text.drop_last() =~= decimal_text(n / 10));
        assert(text.last() == digit_char(n % 10));
        assert(digits_value(text) == digits_value(decimal_text(n / 10)) * 10 + (n % 10));
        assert(n == (n / 10) * 10 + n % 10) by (nonlinear_arith);
        assert forall|i: int| 0 <= i < text.len() implies is_decimal_digit(#[trigger] text[i]) by {
            if i < text.len() - 1 {
                assert(text[i] == decimal_text(n / 10)[i]);
            }
        }
    }
}

/// Decimal text parses back to the number it was written from.
pub proof fn lemma_decimal_round_trip(n: u128)
    ensures
        parsed_u128(decimal_text(n as nat)) == Some(n),
{
    lemma_decimal_text_digits(n as nat);
    let text = decimal_text(n as nat);
    assert(is_decimal_digit(text[0]));
}

proof fn lemma_records_decode(records: Seq<(String, u128)>)
    ensures
        ({
            let texts = record_texts(records.map_values(|r: (String, u128)| (r.0@, r.1)));
            all_times_parse(texts) && decoded_map(texts) == records_map(records)
        }),
    decreases records.len(),
{
    let texts = record_texts(records.map_values(|r: (String, u128)| (r.0@, r.1)));
    if records.len() > 0 {
        let rest = records.drop_last();
        lemma_records_decode(rest);
        let rest_texts = record_texts(rest.map_values(|r: (String, u128)| (r.0@, r.1)));
        assert(texts.drop_last() =~= rest_texts);
        lemma_decimal_round_trip(records.last().1);
        assert(texts.last() == (records.last().0@, decimal_text(records.last().1 as nat)));
        assert forall|i: int| 0 <= i < texts.len() implies (#[trigger] parsed_u128(texts[i].1)) is Some by {
            if i < texts.len() - 1 {
                assert(texts[i] == rest_texts[i]);
            }
        }
    } else {
        assert(decoded_map(texts) =~= records_map(records));
    }
}

/// Bytes that decode to a cache's record texts (as those `to_bytes` returns
/// do) load back, through `from_bytes`, to the same records.
pub proof fn lemma_saved_cache_loads_back(cache: FileDistributorCache, bytes: Seq<u8>)
    requires
        cache_decoding(bytes) == Some((record_texts(cache.record_list()), cache.spec_loaded_path())),
    ensures
        all_times_parse(record_texts(cache.record_list())),
        decoded_map(record_texts(cache.record_list())) == cache@,
{
    lemma_records_decode(cache.files_touch_time_record@);
}

/// A path without a record is stale whatever its modification time.
pub proof fn lemma_missing_record_is_stale(
    cache: Map<Seq<char>, u128>,
    path: Seq<char>,
    modified: Result<u128, QueryMetaError>,
)
    requires
        !cache.contains_key(path),
    ensures
        is_stale(cache, path, modified),
{
}

/// A file modified after its recorded time is stale; once its new time is
/// recorded it is current again, until its modification time advances.
pub proof fn lemma_stale_until_recorded(cache: Map<Seq<char>, u128>, path: Seq<char>, now: u128, later: u128)
    requires
        cache.contains_key(path),
        now > cache[path],
        later > now,
    ensures
        is_stale(cache, path, Ok(now)),
        !is_stale(recorded(cache, path, Ok(now)), path, Ok(now)),
        is_stale(recorded(cache, path, Ok(now)), path, Ok(later)),
{
}

} // verus!
