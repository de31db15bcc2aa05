//! Choosing an input device and how to capture from it.

use vstd::prelude::*;
use crate::text;

verus! {

/// How a device gives its samples, as far as it matters here.
#[derive(Debug, Clone, Copy, PartialEq, Eq, Structural)]
pub enum SampleFormat {
    F32,
    I16,
    U16,
    Other,
}

/// A range of ways in which a device can capture.
#[derive(Debug, Clone, Copy, PartialEq, Eq, Structural)]
pub struct InputRange {
    pub min_sample_rate: u32,
    pub max_sample_rate: u32,
    pub format: SampleFormat,
}

/// Which device to use.
#[derive(Debug, Clone, Copy, PartialEq, Eq, Structural)]
pub enum DeviceChoice {
    /// The default one.
    Default,
    /// The one with this number.
    Numbered(usize),
    /// None has the name.
    NotFound,
}

/// Whether the device with this description is named `wanted`.
pub open spec fn is_named(description: Option<String>, wanted: Seq<char>) -> bool {
    description matches Some(name) && name@ == wanted
}

/// Whether the name of the device with this description begins with `wanted`.
pub open spec fn goes_by(description: Option<String>, wanted: Seq<char>) -> bool {
    description matches Some(name) && text::begins_with(name@, wanted)
}

/// Whether one of the devices is named `wanted`.
pub open spec fn some_named(names: Seq<Option<String>>, wanted: Seq<char>) -> bool {
    exists|j: int| 0 <= j < names.len() && is_named(#[trigger] names[j], wanted)
}

/// Which device to use: `default` stands for the default one; otherwise the
/// first with exactly the name that is wanted, or where none has it, the first
/// whose name begins with it. A device that does not tell its name is passed
/// over.
pub fn select_device(names: &Vec<Option<String>>, wanted: &str) -> (r: DeviceChoice)
    ensures
        wanted@ == "default"@ ==> r == DeviceChoice::Default,
        wanted@ != "default"@ ==> match r {
            DeviceChoice::Default => false,
            DeviceChoice::Numbered(i) => i < names@.len() && if some_named(names@, wanted@) {
                is_named(names@[i as int], wanted@) && forall|j: int|
                    0 <= j < i ==> !is_named(#[trigger] names@[j], wanted@)
            } else {
                goes_by(names@[i as int], wanted@) && forall|j: int|
                    0 <= j < i ==> !goes_by(#[trigger] names@[j], wanted@)
            },
            DeviceChoice::NotFound => forall|j: int|
                0 <= j < names@.len() ==> !goes_by(#[trigger] names@[j], wanted@),
        },
        wanted@ != "default"@ ==> is_wanted(names@, wanted@, r),
{
    if text::same_text(wanted, "default") {
        return DeviceChoice::Default;
    }
    let mut first: Option<usize> = None;
    let mut i: usize = 0;
    while i < names.len()
        invariant
            i <= names@.len(),
            wanted@ != "default"@,
            forall|j: int| 0 <= j < i ==> !is_named(#[trigger] names@[j], wanted@),
            match first {
                Some(f) => f < i && goes_by(names@[f as int], wanted@) && forall|j: int|
                    0 <= j < f ==> !goes_by(#[trigger] names@[j], wanted@),
                None => forall|j: int| 0 <= j < i ==> !goes_by(#[trigger] names@[j], wanted@),
            },
        decreases names@.len() - i,
    {
        if let Some(name) = &names[i] {
            if text::same_text(name.as_str(), wanted) {
                proof {
                    assert(is_named(names@[i as int], wanted@));
                }
                return DeviceChoice::Numbered(i);
            }
            if first.is_none() && text::starts_with(name.as_str(), wanted) {
                first = Some(i);
            }
        }
        i += 1;
    }
    match first {
        Some(f) => DeviceChoice::Numbered(f),
        None => DeviceChoice::NotFound,
    }
}

/// A device is found by its exact name, whatever the other devices are called.
pub proof fn law_exact_name_is_found(names: Seq<Option<String>>, wanted: Seq<char>, j: int)
    requires
        0 <= j < names.len(),
        is_named(names[j], wanted),
    ensures
        some_named(names, wanted),
        goes_by(names[j], wanted),
{
    assert(wanted.take(wanted.len() as int) =~= wanted);
}

/// The names among the descriptions.
pub open spec fn known_names(descriptions: Seq<Option<String>>) -> Seq<Seq<char>>
    decreases descriptions.len(),
{
    if descriptions.len() == 0 {
        Seq::empty()
    } else {
        let before = known_names(descriptions.drop_last());
        match descriptions.last() {
            Some(name) => before.push(name@),
            None => before,
        }
    }
}

/// The line for the device with number `i` in the listing for the user.
pub open spec fn device_line(i: int, name: Seq<char>) -> Seq<char> {
    "  ["@ + text::numeral(i as nat, 10) + "] "@ + name
}

/// The lines of the listing for the user.
pub open spec fn listing_of(names: Seq<Seq<char>>) -> Seq<Seq<char>> {
    if names.len() == 0 {
        seq!["Nenhum dispositivo de entrada encontrado."@]
    } else {
        seq!["Dispositivos de entrada disponíveis:"@] + Seq::new(
            names.len(),
            |i: int| device_line(i, names[i]),
        ) + seq!["\nUse o nome exato no campo [audio] device do config.toml."@]
    }
}

/// The lines of the listing for the user.
pub fn device_listing(names: &Vec<String>) -> (lines: Vec<String>)
    ensures
        text::views(lines@) == listing_of(text::views(names@)),
{
    let mut lines: Vec<String> = Vec::new();
    if names.len() == 0 {
        lines.push("Nenhum dispositivo de entrada encontrado.".to_owned());
        proof {
            assert(text::views(lines@) =~= listing_of(text::views(names@)));
        }
        return lines;
    }
    lines.push("Dispositivos de entrada disponíveis:".to_owned());
    let mut i: usize = 0;
    while i < names.len()
        invariant
            i <= names@.len(),
            names@.len() > 0,
            lines@.len() == i + 1,
            forall|k: int|
                0 <= k <= i ==> (#[trigger] lines@[k])@ == listing_of(text::views(names@))[k],
        decreases names@.len() - i,
    {
        let mut line: String = "  [".to_owned();
        line.append(text::to_numeral(i as u64, 10).as_str());
        line.append("] ");
        line.append(names[i].as_str());
        lines.push(line);
        i += 1;
    }
    lines.push("\nUse o nome exato no campo [audio] device do config.toml.".to_owned());
    proof {
        assert(text::views(lines@) =~= listing_of(text::views(names@)));
    }
    lines
}

/// How much a format is to be avoided.
pub open spec fn rank(f: SampleFormat) -> nat {
    match f {
        SampleFormat::F32 => 0,
        SampleFormat::I16 => 1,
        SampleFormat::U16 => 2,
        SampleFormat::Other => 10,
    }
}

/// How much a format is to be avoided.
pub fn sample_format_rank(f: SampleFormat) -> (r: usize)
    ensures
        r == rank(f),
{
    match f {
        SampleFormat::F32 => 0,
        SampleFormat::I16 => 1,
        SampleFormat::U16 => 2,
        SampleFormat::Other => 10,
    }
}

/// Whether a device can capture at `rate` in this way.
pub open spec fn supports(c: InputRange, rate: u32) -> bool {
    c.min_sample_rate <= rate <= c.max_sample_rate
}

/// Whether one of the ways supports `rate`.
pub open spec fn some_supports(ranges: Seq<InputRange>, rate: u32) -> bool {
    exists|i: int| 0 <= i < ranges.len() && supports(#[trigger] ranges[i], rate)
}

/// Whether number `i` is the first of the ways that support `rate` in the best
/// format among them.
pub open spec fn is_first_best(ranges: Seq<InputRange>, rate: u32, i: int) -> bool {
    &&& 0 <= i < ranges.len()
    &&& supports(ranges[i], rate)
    &&& forall|j: int|
        0 <= j < ranges.len() && supports(#[trigger] ranges[j], rate) ==> rank(ranges[i].format)
            <= rank(ranges[j].format) && (j < i ==> rank(ranges[i].format) < rank(
            ranges[j].format,
        ))
}

/// Whether `a` is better than `b` where no way supports the wanted rate: by its
/// format, then by its highest rate.
pub open spec fn better(a: InputRange, b: InputRange) -> bool {
    ||| rank(a.format) < rank(b.format)
    ||| rank(a.format) == rank(b.format) && a.max_sample_rate > b.max_sample_rate
}

/// Whether number `i` is the last of the ways than which none is better.
pub open spec fn is_last_fallback(ranges: Seq<InputRange>, i: int) -> bool {
    &&& 0 <= i < ranges.len()
    &&& forall|j: int|
        0 <= j < ranges.len() ==> !better(#[trigger] ranges[j], ranges[i]) && (j > i ==> better(
            ranges[i],
            ranges[j],
        ))
}

/// How to capture: the number of the way, and the rate.
#[derive(Debug, Clone, Copy, PartialEq, Eq, Structural)]
pub struct CaptureChoice {
    pub index: usize,
    pub sample_rate: u32,
}

/// How to capture from a device: at the wanted rate in the best format, if that
/// is possible; else in the best format at its highest rate, to be converted
/// afterwards. A device without any way to capture gives none.
pub fn negotiate_config(ranges: &Vec<InputRange>, preferred_rate: u32) -> (r: Option<
    CaptureChoice,
>)
    ensures
        match r {
            None => ranges@.len() == 0,
            Some(c) => if some_supports(ranges@, preferred_rate) {
                is_first_best(ranges@, preferred_rate, c.index as int) && c.sample_rate
                    == preferred_rate
            } else {
                is_last_fallback(ranges@, c.index as int) && c.sample_rate
                    == ranges@[c.index as int].max_sample_rate
            },
        },
{
    if ranges.len() == 0 {
        return None;
    }
    let mut best: Option<usize> = None;
    let mut last: usize = 0;
    let mut i: usize = 0;
    while i < ranges.len()
        invariant
            i <= ranges@.len(),
            ranges@.len() > 0,
            match best {
                Some(b) => is_first_best(ranges@.take(i as int), preferred_rate, b as int),
                None => forall|j: int|
                    0 <= j < i ==> !supports(#[trigger] ranges@[j], preferred_rate),
            },
            i > 0 ==> is_last_fallback(ranges@.take(i as int), last as int),
            i == 0 ==> last == 0,
        decreases ranges@.len() - i,
    {
        let c: InputRange = ranges[i];
        let ghost seen = ranges@.take(i as int);
        let ghost next = ranges@.take(i + 1);
        proof {
            assert(forall|j: int| 0 <= j < i ==> next[j] == #[trigger] seen[j]);
            assert(next[i as int] == c);
        }
        if c.min_sample_rate <= preferred_rate && c.max_sample_rate >= preferred_rate {
            match best {
                None => {
                    best = Some(i);
                },
                Some(b) => {
                    if sample_format_rank(c.format) < sample_format_rank(ranges[b].format) {
                        best = Some(i);
                    }
                },
            }
        }
        let top: InputRange = ranges[last];
        let rc: usize = sample_format_rank(c.format);
        let rt: usize = sample_format_rank(top.format);
        if rc < rt || (rc == rt && c.max_sample_rate >= top.max_sample_rate) {
            last = i;
        }
        proof {
            assert(forall|j: int| 0 <= j < next.len() - 1 ==> #[trigger] next[j] == seen[j]);
        }
        i += 1;
    }
    proof {
        assert(ranges@.take(ranges@.len() as int) =~= ranges@);
    }
    match best {
        Some(b) => {
            proof {
                assert(supports(ranges@[b as int], preferred_rate));
            }
            Some(CaptureChoice { index: b, sample_rate: preferred_rate })
        },
        None => Some(CaptureChoice { index: last, sample_rate: ranges[last].max_sample_rate }),
    }
}

/// What is chosen is a way that the device has, at a rate that it supports there
/// (its ranges being no empty ones).
pub proof fn law_choice_is_possible(ranges: Seq<InputRange>, preferred_rate: u32, c: CaptureChoice)
    requires
        forall|j: int|
            0 <= j < ranges.len() ==> (#[trigger] ranges[j]).min_sample_rate
                <= ranges[j].max_sample_rate,
        if some_supports(ranges, preferred_rate) {
            is_first_best(ranges, preferred_rate, c.index as int) && c.sample_rate
                == preferred_rate
        } else {
            is_last_fallback(ranges, c.index as int) && c.sample_rate
                == ranges[c.index as int].max_sample_rate
        },
    ensures
        c.index < ranges.len(),
        supports(ranges[c.index as int], c.sample_rate),
{
}

/// Formats are ranked: floating point before signed numbers, those before
/// unsigned ones, and all of them before any other.
pub proof fn law_formats_are_ranked()
    ensures
        rank(SampleFormat::F32) < rank(SampleFormat::I16),
        rank(SampleFormat::I16) < rank(SampleFormat::U16),
        rank(SampleFormat::U16) < rank(SampleFormat::Other),
{
}

/// Where a way supports the wanted rate, what is chosen supports it, in a format
/// than which no other way that does has a better one; where none does, it has
/// the best format of all, and the highest rate among those that have it.
pub proof fn law_best_way_is_chosen(
    ranges: Vec<InputRange>,
    rate: u32,
    r: Option<CaptureChoice>,
    j: int,
)
    requires
        call_ensures(negotiate_config, (&ranges, rate), r),
        0 <= j < ranges@.len(),
    ensures
        r matches Some(c) && c.index < ranges@.len() && ({
            let chosen = ranges@[c.index as int];
            let other = ranges@[j];
            &&& other.min_sample_rate <= rate <= other.max_sample_rate ==> {
                &&& c.sample_rate == rate
                &&& chosen.min_sample_rate <= rate <= chosen.max_sample_rate
                &&& rank(chosen.format) <= rank(other.format)
                &&& j < c.index ==> rank(chosen.format) < rank(other.format)
            }
            &&& !(chosen.min_sample_rate <= rate <= chosen.max_sample_rate) ==> {
                &&& c.sample_rate == chosen.max_sample_rate
                &&& rank(chosen.format) <= rank(other.format)
                &&& rank(chosen.format) == rank(other.format) ==> chosen.max_sample_rate
                    >= other.max_sample_rate
                &&& rank(chosen.format) == rank(other.format) && j > c.index
                    ==> chosen.max_sample_rate > other.max_sample_rate
            }
        }),
{
    let c = r->Some_0;
    assert(supports(ranges@[j], rate) ==> some_supports(ranges@, rate));
}

/// Whether the choice is that of the device that is wanted: it is found where
/// there is one, by its name, and the first of that name; or by the beginning of
/// its name, where none has just that name.
pub open spec fn is_wanted(names: Seq<Option<String>>, wanted: Seq<char>, r: DeviceChoice) -> bool {
    if some_named(names, wanted) {
        r matches DeviceChoice::Numbered(i) && i < names.len() && is_named(
            names[i as int],
            wanted,
        ) && forall|j: int| 0 <= j < i ==> !is_named(#[trigger] names[j], wanted)
    } else {
        match r {
            DeviceChoice::Default => false,
            DeviceChoice::Numbered(i) => i < names.len() && goes_by(names[i as int], wanted)
                && forall|j: int| 0 <= j < i ==> !goes_by(#[trigger] names[j], wanted),
            DeviceChoice::NotFound => forall|j: int|
                0 <= j < names.len() ==> !goes_by(#[trigger] names[j], wanted),
        }
    }
}

/// A device that is wanted by its name is found, and the first of that name; one
/// that is wanted by the beginning of a name is found where no other has just
/// that name.
pub proof fn law_wanted_device_is_found(
    names: Seq<Option<String>>,
    wanted: Seq<char>,
    r: DeviceChoice,
    j: int,
)
    requires
        is_wanted(names, wanted, r),
        0 <= j < names.len(),
        names[j] matches Some(name) && name@.len() >= wanted.len() && name@.take(
            wanted.len() as int,
        ) == wanted,
    ensures
        r matches DeviceChoice::Numbered(i) && i < names.len() && (names[i as int] matches Some(
            name,
        ) && name@.len() >= wanted.len() && name@.take(wanted.len() as int) == wanted),
        (names[j] matches Some(name) && name@ == wanted) ==> (r matches DeviceChoice::Numbered(i)
            && i <= j && (names[i as int] matches Some(name) && name@ == wanted)),
{
    assert(goes_by(names[j], wanted));
    assert(wanted.take(wanted.len() as int) =~= wanted);
    if is_named(names[j], wanted) {
        assert(some_named(names, wanted));
    }
}

/// The names of two lists of devices are those of the one, then those of the
/// other; a device that does not tell its name is passed over.
pub proof fn law_names_are_listed_in_order(
    a: Seq<Option<String>>,
    b: Seq<Option<String>>,
    d: Option<String>,
)
    ensures
        known_names(a + b) == known_names(a) + known_names(b),
        known_names(seq![d]) == (match d {
            Some(name) => seq![name@],
            None => Seq::empty(),
        }),
    decreases b.len(),
{
    if b.len() == 0 {
        assert(a + b =~= a);
        assert(known_names(a) + known_names(b) =~= known_names(a));
    } else {
        law_names_are_listed_in_order(a, b.drop_last(), d);
        assert((a + b).drop_last() =~= a + b.drop_last());
        assert((a + b).last() == b.last());
        assert(known_names(a + b) =~= known_names(a) + known_names(b));
    }
    assert(seq![d].drop_last() =~= Seq::<Option<String>>::empty());
    assert(seq![d].last() == d);
    assert(known_names(seq![d].drop_last()) =~= Seq::<Seq<char>>::empty());
    assert(known_names(seq![d]) =~= (match d {
        Some(name) => seq![name@],
        None => Seq::empty(),
    }));
}

/// Every device has a line of its own in the listing, in order, with its number
/// and its name.
pub proof fn law_every_device_is_listed(names: Seq<Seq<char>>, i: int)
    requires
        0 <= i < names.len(),
    ensures
        listing_of(names).len() == names.len() + 2,
        listing_of(names)[i + 1] == "  ["@ + text::numeral(i as nat, 10) + "] "@ + names[i],
{
}

/// What is chosen by name is a device whose name begins with what is wanted: with
/// these very characters.
pub proof fn law_chosen_device_has_the_name(
    names: Seq<Option<String>>,
    wanted: Seq<char>,
    i: usize,
)
    requires
        is_wanted(names, wanted, DeviceChoice::Numbered(i)),
    ensures
        i < names.len(),
        names[i as int] matches Some(name) && name@.len() >= wanted.len() && forall|k: int|
            0 <= k < wanted.len() ==> #[trigger] name@[k] == wanted[k],
{
    assert(wanted.take(wanted.len() as int) =~= wanted);
    if let Some(name) = names[i as int] {
        assert forall|k: int| 0 <= k < wanted.len() implies #[trigger] name@[k] == wanted[k] by {
            assert(name@.take(wanted.len() as int)[k] == name@[k]);
        }
    }
}

} // verus!
