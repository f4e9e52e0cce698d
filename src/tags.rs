use vstd::prelude::*;

verus! {

/// Value of a non-empty run of decimal digits.
pub open spec fn digits_value(s: Seq<char>) -> int
    decreases s.len(),
{
    if s.len() == 0 {
        0
    } else {
        digits_value(s.drop_last()) * 10 + (s.last() as int - '0' as int)
    }
}

pub open spec fn all_digits(s: Seq<char>) -> bool {
    forall|i: int| 0 <= i < s.len() ==> '0' <= #[trigger] s[i] <= '9'
}

/// The digits that a decimal literal carries after an optional `+`.
pub open spec fn unsigned_body(s: Seq<char>) -> Seq<char> {
    if s.len() > 0 && s[0] == '+' {
        s.drop_first()
    } else {
        s
    }
}

/// An unsigned decimal integer as written in a tag: an optional `+`,
/// then at least one digit, and a value that fits in `usize`.
pub open spec fn decimal_of(s: Seq<char>) -> Option<int> {
    let body = unsigned_body(s);
    if body.len() > 0 && all_digits(body) && digits_value(body) <= usize::MAX {
        Some(digits_value(body))
    } else {
        None
    }
}

proof fn lemma_digits_value_nonneg(s: Seq<char>)
    requires
        all_digits(s),
    ensures
        digits_value(s) >= 0,
    decreases s.len(),
{
    if s.len() > 0 {
        let t = s.drop_last();
        assert forall|i: int| 0 <= i < t.len() implies '0' <= #[trigger] t[i] <= '9' by {
            assert(t[i] == s[i]);
        }
        lemma_digits_value_nonneg(t);
        assert(s.last() == s[s.len() - 1]);
    }
}

/// Parses an unsigned decimal integer.
pub fn parse_decimal(s: &str) -> (r: Option<usize>)
    ensures
        match r {
            Some(v) => decimal_of(s@) == Some(v as int),
            None => decimal_of(s@) is None,
        },
{
    let n = s.unicode_len();
    let mut i: usize = 0;
    if n > 0 && s.get_char(0) == '+' {
        i = 1;
    }
    let ghost body = unsigned_body(s@);
    let ghost first = i as int;
    proof {
        if i == 1 {
            assert(body =~= s@.subrange(1, n as int));
        } else {
            assert(body =~= s@.subrange(0, n as int));
        }
    }
    if i == n {
        return None;
    }
    let mut value: usize = 0;
    while i < n
        invariant
            n == s@.len(),
            0 <= first <= 1,
            first <= i <= n,
            body == unsigned_body(s@),
            body == s@.subrange(first, n as int),
            all_digits(s@.subrange(first, i as int)),
            value == digits_value(s@.subrange(first, i as int)),
        decreases n - i,
    {
        let c = s.get_char(i);
        let ghost prefix = s@.subrange(first, i as int + 1);
        proof {
            assert(prefix.drop_last() =~= s@.subrange(first, i as int));
            assert(prefix.last() == c);
        }
        if c < '0' || c > '9' {
            proof {
                assert(body[i - first] == c);
                assert(!all_digits(body));
                assert(decimal_of(s@) is None);
            }
            return None;
        }
        let d = (c as u32 - '0' as u32) as usize;
        if value > (usize::MAX - d) / 10 {
            proof {
                assert forall|j: int| 0 <= j < prefix.len() implies '0' <= #[trigger] prefix[j]
                    <= '9' by {
                    if j < prefix.len() - 1 {
                        assert(prefix[j] == s@.subrange(first, i as int)[j]);
                    }
                }
                assert(digits_value(prefix) > usize::MAX) by (nonlinear_arith)
                    requires
                        digits_value(prefix) == value * 10 + d,
                        value > (usize::MAX - d) / 10,
                        0 <= d <= 9,
                ;
                assert(body.subrange(0, i - first + 1) =~= prefix);
                lemma_prefix_grows(body, (i - first + 1) as int);
                assert(decimal_of(s@) is None);
            }
            return None;
        }
        value = value * 10 + d;
        i += 1;
        proof {
            assert forall|j: int| 0 <= j < prefix.len() implies '0' <= #[trigger] prefix[j] <= '9' by {
                if j < prefix.len() - 1 {
                    assert(prefix[j] == s@.subrange(first, i as int - 1)[j]);
                }
            }
        }
    }
    proof {
        assert(s@.subrange(first, n as int) =~= body);
    }
    Some(value)
}

/// A digit string's value is at least the value of any of its prefixes.
proof fn lemma_prefix_grows(s: Seq<char>, k: int)
    requires
        0 <= k <= s.len(),
        all_digits(s.subrange(0, k)),
    ensures
        all_digits(s) ==> digits_value(s) >= digits_value(s.subrange(0, k)),
    decreases s.len() - k,
{
    if k < s.len() && all_digits(s) {
        let t = s.subrange(0, k + 1);
        assert(t.drop_last() =~= s.subrange(0, k));
        assert forall|j: int| 0 <= j < t.len() implies '0' <= #[trigger] t[j] <= '9' by {
            assert(t[j] == s[j]);
        }
        lemma_digits_value_nonneg(s.subrange(0, k));
        assert(t.last() == s[k]);
        lemma_prefix_grows(s, k + 1);
        assert(digits_value(t) >= digits_value(s.subrange(0, k))) by (nonlinear_arith)
            requires
                digits_value(t) == digits_value(s.subrange(0, k)) * 10 + (s[k] as int - '0' as int),
                digits_value(s.subrange(0, k)) >= 0,
                '0' <= s[k] <= '9',
        ;
    } else if k == s.len() {
        assert(s.subrange(0, k) =~= s);
    }
}

/// Character-wise string equality.
pub fn str_eq(a: &str, b: &str) -> (r: bool)
    ensures
        r == (a@ == b@),
{
    let n = a.unicode_len();
    if n != b.unicode_len() {
        return false;
    }
    let mut i: usize = 0;
    while i < n
        invariant
            n == a@.len(),
            n == b@.len(),
            i <= n,
            forall|j: int| 0 <= j < i ==> a@[j] == b@[j],
        decreases n - i,
    {
        if a.get_char(i) != b.get_char(i) {
            return false;
        }
        i += 1;
    }
    assert(a@ =~= b@);
    true
}

/// The direction flags of a `oneway` tag: (one way at all, against the way's order).
pub open spec fn one_way_of(s: Seq<char>) -> (bool, bool) {
    if s == "yes"@ {
        (true, false)
    } else if s == "-1"@ {
        (true, true)
    } else {
        (false, false)
    }
}

pub fn parse_one_way(s: &str) -> (r: (bool, bool))
    ensures
        r == one_way_of(s@),
{
    if str_eq(s, "yes") {
        (true, false)
    } else if str_eq(s, "-1") {
        (true, true)
    } else {
        (false, false)
    }
}

/// Speeds (km/h) of `maxspeed` values that are not plain numbers.
pub open spec fn known_speed(s: Seq<char>) -> Option<int> {
    if s == "DE:motorway"@ {
        Some(120)
    } else if s == "DE:rural"@ || s == "AT:rural"@ {
        Some(100)
    } else if s == "DE:urban"@ || s == "AT:urban"@ || s == "CZ:urban"@ || s == "maxspeed=50"@
        || s == "50;"@ || s == "50b"@ {
        Some(50)
    } else if s == "DE:living_street"@ || s == "30 kph"@ || s == "zone:maxspeed=de:30"@ || s
        == "DE:zone:30"@ || s == "DE:zone30"@ || s == "30 mph"@ {
        Some(30)
    } else if s == "20:forward"@ {
        Some(20)
    } else if s == "10 mph"@ {
        Some(10)
    } else if s == "5 mph"@ || s == "DE:walk"@ || s == "walk"@ || s == "Schrittgeschwindigkeit"@ {
        Some(7)
    } else {
        None
    }
}

/// Resolves a `maxspeed` value that plain number parsing cannot read.
pub fn resolve_max_speed(s: &str) -> (r: Result<usize, &'static str>)
    ensures
        r is Ok <==> known_speed(s@) is Some,
        r matches Ok(v) ==> v == known_speed(s@).unwrap(),
{
    if str_eq(s, "DE:motorway") {
        Ok(120)
    } else if str_eq(s, "DE:rural") || str_eq(s, "AT:rural") {
        Ok(100)
    } else if str_eq(s, "DE:urban") || str_eq(s, "AT:urban") || str_eq(s, "CZ:urban") || str_eq(
        s,
        "maxspeed=50",
    ) || str_eq(s, "50;") || str_eq(s, "50b") {
        Ok(50)
    } else if str_eq(s, "DE:living_street") || str_eq(s, "30 kph") || str_eq(
        s,
        "zone:maxspeed=de:30",
    ) || str_eq(s, "DE:zone:30") || str_eq(s, "DE:zone30") || str_eq(s, "30 mph") {
        Ok(30)
    } else if str_eq(s, "20:forward") {
        Ok(20)
    } else if str_eq(s, "10 mph") {
        Ok(10)
    } else if str_eq(s, "5 mph") || str_eq(s, "DE:walk") || str_eq(s, "walk") || str_eq(
        s,
        "Schrittgeschwindigkeit",
    ) {
        Ok(7)
    } else {
        Err("none")
    }
}

/// Default speed (km/h) for a `highway` value.
pub open spec fn default_speed(s: Seq<char>) -> int {
    if s == "motorway"@ {
        120
    } else if s == "motorway_link"@ {
        60
    } else if s == "trunk"@ {
        100
    } else if s == "trunk_link"@ {
        50
    } else if s == "primary"@ {
        60
    } else if s == "unclassified"@ {
        40
    } else if s == "residential"@ {
        30
    } else if s == "track"@ || s == "service"@ {
        10
    } else if s == "living_street"@ {
        7
    } else if s == "path"@ || s == "walk"@ || s == "footway"@ {
        4
    } else {
        50
    }
}

pub fn aproximate_speed_limit(s: &str) -> (r: usize)
    ensures
        r == default_speed(s@),
{
    if str_eq(s, "motorway") {
        120
    } else if str_eq(s, "motorway_link") {
        60
    } else if str_eq(s, "trunk") {
        100
    } else if str_eq(s, "trunk_link") {
        50
    } else if str_eq(s, "primary") {
        60
    } else if str_eq(s, "unclassified") {
        40
    } else if str_eq(s, "residential") {
        30
    } else if str_eq(s, "track") || str_eq(s, "service") {
        10
    } else if str_eq(s, "living_street") {
        7
    } else if str_eq(s, "path") || str_eq(s, "walk") || str_eq(s, "footway") {
        4
    } else {
        50
    }
}

/// The speed of a way: its `maxspeed` as a number, else a known tag value,
/// else the default of its `highway` class.
pub open spec fn speed_of(max_speed: Seq<char>, highway: Seq<char>) -> int {
    match decimal_of(max_speed) {
        Some(v) => v,
        None => match known_speed(max_speed) {
            Some(v) => v,
            None => default_speed(highway),
        },
    }
}

pub fn parse_speed(max_speed: &str, highway: &str) -> (r: usize)
    ensures
        r == speed_of(max_speed@, highway@),
{
    match parse_decimal(max_speed) {
        Some(v) => v,
        None => match resolve_max_speed(max_speed) {
            Ok(v) => v,
            Err(_) => aproximate_speed_limit(highway),
        },
    }
}

/// Sentinel travel type of ways that are skipped.
pub const SKIPPED_TYPE: usize = 100;

/// Travel type of a `highway` value before the sidewalk adjustment.
pub open spec fn base_street_type(s: Seq<char>) -> int {
    if s == "motorway"@ || s == "motorway_link"@ || s == "trunk"@ || s == "trunk_link"@ || s
        == "raceway"@ || s == "services"@ || s == "rest_area"@ {
        0
    } else if s == "primary"@ || s == "primary_link"@ || s == "secondary"@ || s
        == "secondary_link"@ || s == "tertiary"@ || s == "tertiary_link"@ {
        1
    } else if s == "cycleway"@ {
        2
    } else if s == "trail"@ || s == "track"@ || s == "path"@ {
        3
    } else if s == "elevator"@ || s == "platform"@ || s == "corridor"@ || s == "bus_stop"@ || s
        == "bridleway"@ || s == "steps"@ || s == "pedestrian"@ || s == "footway"@ {
        4
    } else if s == "razed"@ || s == "abandoned"@ || s == "disused"@ || s == "construction"@ || s
        == "proposed"@ {
        100
    } else {
        5
    }
}

/// Travel type of a way: 0 motor, 1 motor and bike, 2 bike, 3 bike and
/// foot, 4 foot, 5 all, 100 skipped; a sidewalk opens types 1 and 3 to all
/// and type 2 to pedestrians.
pub open spec fn street_type(s: Seq<char>, has_sidewalk: bool) -> int {
    let t = base_street_type(s);
    if has_sidewalk {
        if t == 1 {
            5
        } else if t == 2 {
            3
        } else if t == 3 {
            5
        } else {
            t
        }
    } else {
        t
    }
}

pub fn get_street_type(s: &str, has_sidewalk: bool) -> (r: usize)
    ensures
        r == street_type(s@, has_sidewalk),
{
    let mut result: usize = if str_eq(s, "motorway") || str_eq(s, "motorway_link") || str_eq(
        s,
        "trunk",
    ) || str_eq(s, "trunk_link") || str_eq(s, "raceway") || str_eq(s, "services") || str_eq(
        s,
        "rest_area",
    ) {
        0
    } else if str_eq(s, "primary") || str_eq(s, "primary_link") || str_eq(s, "secondary")
        || str_eq(s, "secondary_link") || str_eq(s, "tertiary") || str_eq(s, "tertiary_link") {
        1
    } else if str_eq(s, "cycleway") {
        2
    } else if str_eq(s, "trail") || str_eq(s, "track") || str_eq(s, "path") {
        3
    } else if str_eq(s, "elevator") || str_eq(s, "platform") || str_eq(s, "corridor") || str_eq(
        s,
        "bus_stop",
    ) || str_eq(s, "bridleway") || str_eq(s, "steps") || str_eq(s, "pedestrian") || str_eq(
        s,
        "footway",
    ) {
        4
    } else if str_eq(s, "razed") || str_eq(s, "abandoned") || str_eq(s, "disused") || str_eq(
        s,
        "construction",
    ) || str_eq(s, "proposed") {
        SKIPPED_TYPE
    } else {
        5
    };
    if has_sidewalk {
        result = if result == 1 {
            5
        } else if result == 2 {
            3
        } else if result == 3 {
            5
        } else {
            result
        };
    }
    result
}

/// A `sidewalk` tag marks a sidewalk unless it says there is none.
pub open spec fn sidewalk_present(s: Seq<char>) -> bool {
    !(s == "none"@ || s == "No"@ || s == "no"@)
}

pub fn has_sidewalk(s: &str) -> (r: bool)
    ensures
        r == sidewalk_present(s@),
{
    !(str_eq(s, "none") || str_eq(s, "No") || str_eq(s, "no"))
}

} // verus!
