//! Naming and gathering of temperature sensors.

use crate::harvest::TempHarvest;
use vstd::prelude::*;
use vstd::string::StringExecFns;

verus! {

/// `s` without leading and trailing whitespace.
pub uninterp spec fn trimmed(s: Seq<char>) -> Seq<char>;

/// Relies on `str::trim`: the result depends on the characters of `s` alone,
/// and is empty when `s` is.
#[verifier::external_body]
fn trim(s: &str) -> (r: &str)
    ensures
        r@ == trimmed(s@),
        s@.len() == 0 ==> r@.len() == 0,
{
    s.trim()
}

/// A device name followed by the trimmed sensor name in parentheses, when
/// there is a sensor name.
pub open spec fn humanized(name: Seq<char>, sensor_name: Option<Seq<char>>) -> Seq<char> {
    match sensor_name {
        Some(ty) => name + seq![' ', '('] + trimmed(ty) + seq![')'],
        None => name,
    }
}

/// Names a device after its kernel name, followed by its sensor name in
/// parentheses when it has one.
pub fn humanize_name(name: String, sensor_name: Option<&String>) -> (r: String)
    ensures
        r@ == humanized(
            name@,
            match sensor_name {
                Some(ty) => Some(ty@),
                None => None,
            },
        ),
{
    match sensor_name {
        Some(ty) => {
            let mut r = name;
            r.append(" (");
            r.append(trim(ty.as_str()));
            r.append(")");
            proof {
                reveal_strlit(" (");
                reveal_strlit(")");
            }
            r
        },
        None => name,
    }
}

/// The name of a hwmon sensor from its device name and its label, each
/// trimmed and joined by `": "` when both are known.
pub open spec fn sensor_name(hwmon_name: Option<Seq<char>>, temp_label: Option<Seq<char>>) -> Seq<char> {
    match (hwmon_name, temp_label) {
        (Some(name), Some(label)) => trimmed(name) + seq![':', ' '] + trimmed(label),
        (None, Some(label)) => label,
        (Some(name), None) => name,
        (None, None) => Seq::empty(),
    }
}

/// Names a hwmon sensor after its device name and its label.
pub fn hwmon_sensor_name(hwmon_name: Option<String>, temp_label: Option<String>) -> (r: String)
    ensures
        r@ == sensor_name(
            match hwmon_name {
                Some(n) => Some(n@),
                None => None,
            },
            match temp_label {
                Some(l) => Some(l@),
                None => None,
            },
        ),
{
    match (hwmon_name, temp_label) {
        (Some(name), Some(label)) => {
            let mut r = String::from_str(trim(name.as_str()));
            r.append(": ");
            r.append(trim(label.as_str()));
            proof {
                reveal_strlit(": ");
            }
            r
        },
        (None, Some(label)) => label,
        (Some(name), None) => name,
        (None, None) => String::new(),
    }
}

/// The character of the decimal digit `d`.
pub open spec fn digit_char(d: nat) -> char {
    if d == 0 {
        '0'
    } else if d == 1 {
        '1'
    } else if d == 2 {
        '2'
    } else if d == 3 {
        '3'
    } else if d == 4 {
        '4'
    } else if d == 5 {
        '5'
    } else if d == 6 {
        '6'
    } else if d == 7 {
        '7'
    } else if d == 8 {
        '8'
    } else {
        '9'
    }
}

/// The decimal digits of `n`, without leading zeros.
pub open spec fn decimal(n: nat) -> Seq<char>
    decreases n,
{
    if n < 10 {
        seq![digit_char(n)]
    } else {
        decimal(n / 10).push(digit_char(n % 10))
    }
}

/// Relies on `usize`'s `Display` through `to_string`: the decimal digits of
/// `n`.
#[verifier::external_body]
fn decimal_string(n: usize) -> (r: String)
    ensures
        r@ == decimal(n as nat),
{
    n.to_string()
}

/// How many times `x` occurs in `s`.
pub open spec fn count_in(s: Seq<Seq<char>>, x: Seq<char>) -> nat
    decreases s.len(),
{
    if s.len() == 0 {
        0
    } else {
        count_in(s.drop_last(), x) + if s.last() == x {
            1nat
        } else {
            0nat
        }
    }
}

/// The name of the `i`-th of the thermal zones typed `types`: its type,
/// followed by ` (c)` when `c > 0` zones before it have the same type.
pub open spec fn zone_label(types: Seq<Seq<char>>, i: int) -> Seq<char> {
    let c = count_in(types.subrange(0, i), types[i]);
    if c == 0 {
        types[i]
    } else {
        types[i] + seq![' ', '('] + decimal(c) + seq![')']
    }
}

/// How many times each zone type was seen so far, less one, held in a
/// `hashbrown::HashMap`.
#[verifier::external_body]
pub struct SeenNames {
    map: hashbrown::HashMap<String, u32>,
}

/// The counts that a [`SeenNames`] holds, by type.
pub uninterp spec fn seen_counts(m: SeenNames) -> Map<Seq<char>, u32>;

impl SeenNames {
    /// Relies on `hashbrown::HashMap::new`: the new map is empty.
    #[verifier::external_body]
    fn new() -> (r: Self)
        ensures
            seen_counts(r) =~= Map::empty(),
    {
        SeenNames { map: hashbrown::HashMap::new() }
    }

    /// Relies on `hashbrown::HashMap::get`: the count of `name`, if the map
    /// has an entry for it.
    #[verifier::external_body]
    fn get(&self, name: &str) -> (r: Option<u32>)
        ensures
            match r {
                Some(c) => seen_counts(*self).contains_key(name@) && c == seen_counts(*self)[name@],
                None => !seen_counts(*self).contains_key(name@),
            },
    {
        self.map.get(name).copied()
    }

    /// Relies on `hashbrown::HashMap::insert`: `name` maps to `count`
    /// afterwards, and every other entry stays.
    #[verifier::external_body]
    fn insert(&mut self, name: String, count: u32)
        ensures
            seen_counts(*final(self)) == seen_counts(*old(self)).insert(name@, count),
    {
        self.map.insert(name, count);
    }
}

proof fn lemma_count_in_push(s: Seq<Seq<char>>, x: Seq<char>, y: Seq<char>)
    ensures
        count_in(s.push(x), y) == count_in(s, y) + if x == y {
            1nat
        } else {
            0nat
        },
{
    assert(s.push(x).drop_last() =~= s);
}

proof fn lemma_count_in_len(s: Seq<Seq<char>>, x: Seq<char>)
    ensures
        count_in(s, x) <= s.len(),
    decreases s.len(),
{
    if s.len() > 0 {
        lemma_count_in_len(s.drop_last(), x);
    }
}

/// Names the thermal zones of the given types, in order, numbering each
/// repeated type by its count of earlier occurrences.
pub fn name_thermal_zones(types: &Vec<String>) -> (r: Vec<String>)
    requires
        types@.len() <= u32::MAX,
    ensures
        r@.len() == types@.len(),
        forall|i: int| 0 <= i < types@.len() ==> (#[trigger] r@[i])@ == zone_label(types@.map_values(|t: String| t@), i),
{
    let ghost views = types@.map_values(|t: String| t@);
    let mut seen_names = SeenNames::new();
    let mut r: Vec<String> = Vec::new();
    let mut i: usize = 0;
    while i < types.len()
        invariant
            i <= types@.len(),
            types@.len() <= u32::MAX,
            views == types@.map_values(|t: String| t@),
            r@.len() == i,
            forall|x: int| 0 <= x < i ==> (#[trigger] r@[x])@ == zone_label(views, x),
            forall|y: Seq<char>|
                #[trigger] seen_counts(seen_names).contains_key(y) <==> count_in(views.subrange(0, i as int), y) > 0,
            forall|y: Seq<char>|
                #[trigger] seen_counts(seen_names).contains_key(y) ==> seen_counts(seen_names)[y] + 1 == count_in(
                    views.subrange(0, i as int),
                    y,
                ),
        decreases types@.len() - i,
    {
        let ghost prefix = views.subrange(0, i as int);
        let ghost x = views[i as int];
        proof {
            assert(views.subrange(0, i + 1) =~= prefix.push(x));
            assert(types@[i as int]@ == x);
            assert forall|y: Seq<char>| count_in(views.subrange(0, i + 1), y) == count_in(prefix, y) + if x == y {
                1nat
            } else {
                0nat
            } by {
                lemma_count_in_push(prefix, x, y);
            }
            lemma_count_in_len(prefix, x);
        }
        let name = match seen_names.get(types[i].as_str()) {
            Some(count) => {
                let count = count + 1;
                seen_names.insert(types[i].clone(), count);
                let mut n = types[i].clone();
                n.append(" (");
                let digits = decimal_string(count as usize);
                n.append(digits.as_str());
                n.append(")");
                proof {
                    reveal_strlit(" (");
                    reveal_strlit(")");
                }
                n
            },
            None => {
                seen_names.insert(types[i].clone(), 0);
                types[i].clone()
            },
        };
        r.push(name);
        proof {
            assert(r@[i as int]@ == zone_label(views, i as int));
        }
        i = i + 1;
    }
    r
}

/// The sensors read from the hwmon interface, and how many hwmon
/// directories were checked.
pub struct HwmonResults<F> {
    /// The sensors found.
    pub temperatures: Vec<TempHarvest<F>>,
    /// The number of hwmon directories checked.
    pub num_hwmon: usize,
}

impl<F> HwmonResults<F> {
    /// Whether the thermal zones are to be read as well: no hwmon directory
    /// was found.
    pub fn needs_thermal_zones(&self) -> (r: bool)
        ensures
            r == (self.num_hwmon == 0),
    {
        self.num_hwmon == 0
    }
}

/// Gathers the temperature sensors: those of hwmon, followed by those of
/// the thermal zones when no hwmon directory was found.
pub fn get_temperature_data<F>(results: HwmonResults<F>, thermal_zones: Vec<TempHarvest<F>>) -> (r: Option<
    Vec<TempHarvest<F>>,
>)
    ensures
        r is Some,
        r->0@ == if results.num_hwmon == 0 {
            results.temperatures@ + thermal_zones@
        } else {
            results.temperatures@
        },
{
    let mut temperatures = results.temperatures;
    if results.num_hwmon == 0 {
        let mut zones = thermal_zones;
        temperatures.append(&mut zones);
    }
    Some(temperatures)
}

} // verus!
