//! Devices by index, name or part of a name.
use crate::text::{
    decimal, decimal_text, digits_number, is_digit, join, joined, lemma_decimal_digits, same_text,
    texts,
};
use vstd::prelude::*;

verus! {

/// What `str::to_lowercase` makes of a text.
pub uninterp spec fn lowercase_text(t: Seq<char>) -> Seq<char>;

/// `str::to_lowercase`: the lower-case form of a text by the Unicode tables, set
/// by the text alone.
#[verifier::external_body]
fn lowercase(t: &str) -> (r: String)
    ensures
        r@ == lowercase_text(t@),
{
    t.to_lowercase()
}

/// Whether one text stands somewhere in another.
pub open spec fn occurs_in(needle: Seq<char>, t: Seq<char>) -> bool {
    exists|i: int| 0 <= i <= t.len() - needle.len() && #[trigger] t.subrange(i, i + needle.len())
        == needle
}

/// Looks for one text in another.
pub fn contains_text(t: &str, needle: &str) -> (r: bool)
    ensures
        r == occurs_in(needle@, t@),
{
    let n: usize = t.unicode_len();
    let m: usize = needle.unicode_len();
    if m > n {
        return false;
    }
    let mut i: usize = 0;
    while i <= n - m
        invariant
            n == t@.len(),
            m == needle@.len(),
            m <= n,
            i <= n - m + 1,
            forall|k: int| 0 <= k < i ==> #[trigger] t@.subrange(k, k + m) != needle@,
        decreases n - m + 1 - i,
    {
        let mut j: usize = 0;
        let ghost part = t@.subrange(i as int, i + m);
        while j < m && t.get_char(i + j) == needle.get_char(j)
            invariant
                j <= m,
                n == t@.len(),
                m == needle@.len(),
                m <= n,
                i <= n - m,
                part == t@.subrange(i as int, i + m),
                forall|k: int| 0 <= k < j ==> part[k] == needle@[k],
            decreases m - j,
        {
            j += 1;
        }
        if j == m {
            assert(part =~= needle@);
            return true;
        }
        assert(part[j as int] != needle@[j as int]);
        if i == n - m {
            return false;
        }
        i += 1;
    }
    false
}

/// The digits of a number as it is written: without a plus sign in front.
pub open spec fn unsigned_part(t: Seq<char>) -> Seq<char> {
    if t.len() > 0 && t[0] == '+' {
        t.skip(1)
    } else {
        t
    }
}

/// The index that a text stands for: digits, at least one, with or without a
/// plus sign, making a number that fits.
pub open spec fn index_of_text(t: Seq<char>) -> Option<nat> {
    let digits = unsigned_part(t);
    if digits.len() > 0 && (forall|i: int| 0 <= i < digits.len() ==> is_digit(digits[i]))
        && digits_number(digits) <= usize::MAX {
        Some(digits_number(digits))
    } else {
        None
    }
}

/// More digits make no smaller number.
proof fn lemma_digits_grow(t: Seq<char>, n: int)
    requires
        0 <= n <= t.len(),
    ensures
        digits_number(t.take(n)) <= digits_number(t),
    decreases t.len() - n,
{
    if n < t.len() {
        lemma_digits_grow(t, n + 1);
        assert(t.take(n + 1).drop_last() =~= t.take(n));
    } else {
        assert(t.take(n) =~= t);
    }
}

/// Reads a text as an index.
pub fn parse_index(t: &str) -> (r: Option<usize>)
    ensures
        r matches Some(i) ==> index_of_text(t@) == Some(i as nat),
        r is None ==> index_of_text(t@) is None,
{
    let n: usize = t.unicode_len();
    let ghost digits = unsigned_part(t@);
    let first: usize = if n > 0 && t.get_char(0) == '+' {
        1
    } else {
        0
    };
    if first == n {
        return None;
    }
    let mut value: usize = 0;
    let mut i: usize = first;
    assert(digits.take(0) =~= Seq::<char>::empty());
    while i < n
        invariant
            first <= i <= n,
            n == t@.len(),
            first <= 1,
            digits == unsigned_part(t@),
            digits.len() == n - first,
            forall|k: int| 0 <= k < digits.len() ==> digits[k] == t@[first + k],
            forall|k: int| 0 <= k < i - first ==> is_digit(#[trigger] digits[k]),
            value == digits_number(digits.take(i - first)),
        decreases n - i,
    {
        let c: char = t.get_char(i);
        if c < '0' || c > '9' {
            assert(!is_digit(digits[i - first]));
            return None;
        }
        let d: usize = (c as u8 - 48) as usize;
        proof {
            assert(digits.take(i - first + 1).drop_last() =~= digits.take(i - first));
            lemma_digits_grow(digits, i - first + 1);
        }
        if value > (usize::MAX - d) / 10 {
            assert(10 * value + d > usize::MAX);
            return None;
        }
        value = value * 10 + d;
        i += 1;
    }
    assert(digits.take(n - first) =~= digits);
    Some(value)
}

/// Why no device, or no single one, was found.
#[derive(Debug)]
pub enum DeviceError {
    /// An index beyond the devices.
    OutOfRange {
        /// What kind of device.
        kind: String,
        /// The index.
        index: usize,
        /// How many devices there are.
        count: usize,
    },
    /// No name matches.
    NoMatch {
        /// What kind of device.
        kind: String,
        /// What was looked for.
        spec: String,
        /// The devices, one per line.
        available: String,
    },
    /// Several names match.
    Ambiguous {
        /// What kind of device.
        kind: String,
        /// What was looked for.
        spec: String,
        /// The matching devices, one per line.
        candidates: String,
    },
}

impl DeviceError {
    /// The message for the user.
    pub open spec fn text(self) -> Seq<char> {
        match self {
            DeviceError::OutOfRange { kind, index, count } => out_of_range_text(
                kind@,
                index as nat,
                count as nat,
            ),
            DeviceError::NoMatch { kind, spec, available } => no_match_text(kind@, spec@, available@),
            DeviceError::Ambiguous { kind, spec, candidates } => ambiguous_text(
                kind@,
                spec@,
                candidates@,
            ),
        }
    }

    /// The message for the user.
    pub fn message(&self) -> (r: String)
        ensures
            r@ == self.text(),
    {
        match self {
            DeviceError::OutOfRange { kind, index, count } => {
                let mut s = kind.clone();
                s.append(" index ");
                s.append(decimal_text(*index as u64).as_str());
                s.append(" is out of range (have ");
                s.append(decimal_text(*count as u64).as_str());
                s.append(" devices)");
                s
            },
            DeviceError::NoMatch { kind, spec, available } => {
                let mut s = "no ".to_string();
                s.append(kind.as_str());
                s.append(" matching \"");
                s.append(spec.as_str());
                s.append("\". Available:\n");
                s.append(available.as_str());
                s
            },
            DeviceError::Ambiguous { kind, spec, candidates } => {
                let mut s = "multiple ".to_string();
                s.append(kind.as_str());
                s.append("s match \"");
                s.append(spec.as_str());
                s.append("\":\n");
                s.append(candidates.as_str());
                s
            },
        }
    }
}

/// The message for an index beyond the devices.
pub open spec fn out_of_range_text(kind: Seq<char>, index: nat, count: nat) -> Seq<char> {
    kind + " index "@ + decimal(index) + " is out of range (have "@ + decimal(count) + " devices)"@
}

/// The message where no name matches.
pub open spec fn no_match_text(kind: Seq<char>, spec: Seq<char>, available: Seq<char>) -> Seq<char> {
    "no "@ + kind + " matching \""@ + spec + "\". Available:\n"@ + available
}

/// The message where several names match.
pub open spec fn ambiguous_text(kind: Seq<char>, spec: Seq<char>, candidates: Seq<char>) -> Seq<char> {
    "multiple "@ + kind + "s match \""@ + spec + "\":\n"@ + candidates
}

/// A device in a list: its index in brackets and its name.
pub open spec fn listed_text(i: nat, name: Seq<char>) -> Seq<char> {
    "  ["@ + decimal(i) + "] "@ + name
}

/// One device of a list.
fn listed(i: usize, name: &str) -> (r: String)
    ensures
        r@ == listed_text(i as nat, name@),
{
    let mut s = "  [".to_string();
    s.append(decimal_text(i as u64).as_str());
    s.append("] ");
    s.append(name);
    s
}

/// The lines of the devices at some indices.
pub open spec fn lines_of(names: Seq<Seq<char>>, indices: Seq<usize>) -> Seq<Seq<char>> {
    indices.map_values(|i: usize| listed_text(i as nat, names[i as int]))
}

/// The lines of all devices.
pub open spec fn all_lines(names: Seq<Seq<char>>) -> Seq<Seq<char>> {
    Seq::new(names.len(), |i: int| listed_text(i as nat, names[i]))
}

/// The lines of all devices.
fn list_all(names: &[String]) -> (r: Vec<String>)
    ensures
        texts(r@) == all_lines(texts(names@)),
{
    let mut out: Vec<String> = Vec::new();
    let mut i: usize = 0;
    while i < names.len()
        invariant
            i <= names.len(),
            texts(out@) =~= all_lines(texts(names@)).take(i as int),
        decreases names.len() - i,
    {
        let line = listed(i, names[i].as_str());
        assert(texts(out@.push(line)) =~= texts(out@).push(line@));
        out.push(line);
        i += 1;
    }
    assert(texts(out@) =~= all_lines(texts(names@)));
    out
}

/// Every device with its index, one per line.
pub fn numbered(names: &[String]) -> (r: String)
    ensures
        r@ == joined(all_lines(texts(names@)), "\n"@),
{
    let lines = list_all(names);
    join(&lines, "\n")
}

/// What is listed of some devices.
pub open spec fn listing_text(names: Seq<Seq<char>>) -> Seq<Seq<char>> {
    if names.len() == 0 {
        seq!["  (none)"@]
    } else {
        all_lines(names)
    }
}

/// The lines that list the devices: each with its index, or `(none)`.
pub fn device_listing(names: &[String]) -> (r: Vec<String>)
    ensures
        texts(r@) == listing_text(texts(names@)),
{
    if names.len() == 0 {
        let mut out: Vec<String> = Vec::new();
        out.push("  (none)".to_string());
        assert(texts(out@) =~= seq!["  (none)"@]);
        out
    } else {
        list_all(names)
    }
}

/// The first index from `i` on that holds exactly this name.
pub open spec fn exact_match(spec: Seq<char>, names: Seq<Seq<char>>, i: nat) -> Option<usize>
    decreases names.len() - i,
{
    if i >= names.len() {
        None
    } else if names[i as int] == spec {
        Some(i as usize)
    } else {
        exact_match(spec, names, i + 1)
    }
}

/// The indices below `n` whose text holds another one.
pub open spec fn matches_below(needle: Seq<char>, lowered: Seq<Seq<char>>, n: nat) -> Seq<usize>
    decreases n,
{
    if n == 0 {
        Seq::empty()
    } else {
        let before = matches_below(needle, lowered, (n - 1) as nat);
        if occurs_in(needle, lowered[n - 1]) {
            before.push((n - 1) as usize)
        } else {
            before
        }
    }
}

/// The device that a part of a name stands for, or the message why there is none
/// or no single one. `needle` and `lowered` are what is looked for and the names
/// in lower case.
pub open spec fn part_resolution(
    spec: Seq<char>,
    needle: Seq<char>,
    names: Seq<Seq<char>>,
    lowered: Seq<Seq<char>>,
    kind: Seq<char>,
) -> Result<usize, Seq<char>> {
    let found = matches_below(needle, lowered, lowered.len());
    if found.len() == 0 {
        Err(no_match_text(kind, spec, joined(all_lines(names), "\n"@)))
    } else if found.len() == 1 {
        Ok(found[0])
    } else {
        Err(ambiguous_text(kind, spec, joined(lines_of(names, found), "\n"@)))
    }
}

/// A match is an index of the names.
proof fn lemma_matches_below(needle: Seq<char>, lowered: Seq<Seq<char>>, n: nat)
    requires
        n <= lowered.len() <= usize::MAX,
    ensures
        forall|k: int| 0 <= k < matches_below(needle, lowered, n).len() ==> #[trigger] matches_below(
            needle,
            lowered,
            n,
        )[k] < n,
    decreases n,
{
    if n > 0 {
        let before = matches_below(needle, lowered, (n - 1) as nat);
        let all = matches_below(needle, lowered, n);
        lemma_matches_below(needle, lowered, (n - 1) as nat);
        assert forall|k: int| 0 <= k < all.len() implies #[trigger] all[k] < n by {
            if k < before.len() {
                assert(all[k] == before[k]);
            }
        }
    }
}

/// Resolve a part of a name, given in lower case, among names in lower case.
pub fn resolve_part(
    spec: &str,
    needle: &str,
    names: &[String],
    lowered: &Vec<String>,
    kind: &str,
) -> (r: Result<usize, DeviceError>)
    requires
        lowered.len() == names.len(),
    ensures
        match r {
            Ok(i) => part_resolution(
                spec@,
                needle@,
                texts(names@),
                texts(lowered@),
                kind@,
            ) == Ok::<usize, Seq<char>>(i) && i < names.len(),
            Err(e) => part_resolution(spec@, needle@, texts(names@), texts(lowered@), kind@) == Err::<
                usize,
                Seq<char>,
            >(e.text()),
        },
        r matches Err(e) ==> !(e is OutOfRange),
        (r matches Err(e) && e is NoMatch) <==> matches_below(
            needle@,
            texts(lowered@),
            lowered.len() as nat,
        ).len() == 0,
{
    let ghost low = texts(lowered@);
    let mut found: Vec<usize> = Vec::new();
    let mut i: usize = 0;
    while i < lowered.len()
        invariant
            i <= lowered.len(),
            low == texts(lowered@),
            found@ == matches_below(needle@, low, i as nat),
        decreases lowered.len() - i,
    {
        assert(low[i as int] == lowered@[i as int]@);
        if contains_text(lowered[i].as_str(), needle) {
            found.push(i);
        }
        i += 1;
    }
    proof {
        lemma_matches_below(needle@, low, low.len());
    }
    if found.len() == 0 {
        return Err(
            DeviceError::NoMatch {
                kind: kind.to_string(),
                spec: spec.to_string(),
                available: numbered(names),
            },
        );
    }
    if found.len() == 1 {
        return Ok(found[0]);
    }
    let mut lines: Vec<String> = Vec::new();
    let mut k: usize = 0;
    while k < found.len()
        invariant
            k <= found.len(),
            forall|j: int| 0 <= j < found.len() ==> #[trigger] found@[j] < names.len(),
            texts(lines@) =~= lines_of(texts(names@), found@).take(k as int),
        decreases found.len() - k,
    {
        let at: usize = found[k];
        let line = listed(at, names[at].as_str());
        assert(texts(lines@.push(line)) =~= texts(lines@).push(line@));
        lines.push(line);
        k += 1;
    }
    assert(texts(lines@) =~= lines_of(texts(names@), found@));
    Err(
        DeviceError::Ambiguous {
            kind: kind.to_string(),
            spec: spec.to_string(),
            candidates: join(&lines, "\n"),
        },
    )
}

/// The texts in lower case.
pub open spec fn all_lowercase(names: Seq<Seq<char>>) -> Seq<Seq<char>> {
    names.map_values(|t: Seq<char>| lowercase_text(t))
}

/// The device that a spec stands for: by index where it is a number, else by its
/// exact name, else by a part of its name without regard to case.
pub open spec fn resolution(spec: Seq<char>, names: Seq<Seq<char>>, kind: Seq<char>) -> Result<
    usize,
    Seq<char>,
> {
    match index_of_text(spec) {
        Some(i) => if i < names.len() {
            Ok(i as usize)
        } else {
            Err(out_of_range_text(kind, i, names.len()))
        },
        None => match exact_match(spec, names, 0) {
            Some(i) => Ok(i),
            None => part_resolution(spec, lowercase_text(spec), names, all_lowercase(names), kind),
        },
    }
}

/// Resolve a device spec (index, exact name, or unique substring) to an index.
///
/// Multiple substring matches are an error and list the candidates.
pub fn resolve_index(spec: &str, names: &[String], kind: &str) -> (r: Result<usize, DeviceError>)
    ensures
        match r {
            Ok(i) => resolution(spec@, texts(names@), kind@) == Ok::<usize, Seq<char>>(i) && i
                < names.len(),
            Err(e) => resolution(spec@, texts(names@), kind@) == Err::<usize, Seq<char>>(e.text()),
        },
        (r matches Err(e) && e is OutOfRange) <==> (index_of_text(spec@) matches Some(i) && i
            >= names.len()),
{
    if let Some(i) = parse_index(spec) {
        if i < names.len() {
            return Ok(i);
        }
        return Err(
            DeviceError::OutOfRange { kind: kind.to_string(), index: i, count: names.len() },
        );
    }
    let ghost all = texts(names@);
    let mut i: usize = 0;
    while i < names.len()
        invariant
            i <= names.len(),
            all == texts(names@),
            index_of_text(spec@) is None,
            exact_match(spec@, all, 0) == exact_match(spec@, all, i as nat),
        decreases names.len() - i,
    {
        assert(all[i as int] == names@[i as int]@);
        if same_text(names[i].as_str(), spec) {
            return Ok(i);
        }
        i += 1;
    }
    let needle = lowercase(spec);
    let mut lowered: Vec<String> = Vec::new();
    let mut k: usize = 0;
    while k < names.len()
        invariant
            k <= names.len(),
            all == texts(names@),
            lowered.len() == k,
            texts(lowered@) =~= all_lowercase(all).take(k as int),
        decreases names.len() - k,
    {
        let low = lowercase(names[k].as_str());
        assert(texts(lowered@.push(low)) =~= texts(lowered@).push(low@));
        lowered.push(low);
        k += 1;
    }
    assert(texts(lowered@) =~= all_lowercase(all));
    resolve_part(spec, needle.as_str(), names, &lowered, kind)
}

/// A device is found under the index that it is listed with.
pub proof fn lemma_listed_index_resolves(names: Seq<Seq<char>>, kind: Seq<char>, i: nat)
    requires
        i < names.len() <= usize::MAX,
    ensures
        resolution(decimal(i), names, kind) == Ok::<usize, Seq<char>>(i as usize),
{
    let t = decimal(i);
    lemma_decimal_digits(i);
    assert(is_digit(t[0]));
    assert(unsigned_part(t) == t);
    assert forall|k: int| 0 <= k < t.len() implies is_digit(t[k]) by {}
}

/// A device is found under its exact name, whatever other names hold that name
/// as a part; of several devices of one name it is the first. A name that reads as
/// an index stands for the index instead.
pub proof fn lemma_exact_name_resolves(names: Seq<Seq<char>>, kind: Seq<char>, i: nat)
    requires
        i < names.len() <= usize::MAX,
        index_of_text(names[i as int]) is None,
        forall|j: int| 0 <= j < i ==> names[j] != names[i as int],
    ensures
        resolution(names[i as int], names, kind) == Ok::<usize, Seq<char>>(i as usize),
{
    lemma_exact_match(names, i, 0);
}

/// The search for a name ends at its first place.
proof fn lemma_exact_match(names: Seq<Seq<char>>, i: nat, from: nat)
    requires
        from <= i < names.len(),
        forall|j: int| 0 <= j < i ==> names[j] != names[i as int],
    ensures
        exact_match(names[i as int], names, from) == Some(i as usize),
    decreases i - from,
{
    if from < i {
        lemma_exact_match(names, i, from + 1);
    }
}

} // verus!
