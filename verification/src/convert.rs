//! Conversion settings and collision-safe output naming.
//!
//! A video `stem.ext` becomes `stem.fwmv` in the destination folder; when that
//! name is taken (the file system reports a file of that name, or the name
//! was already given to another file of the same batch) the next free of
//! `stem_1.fwmv`, `stem_2.fwmv`, ... is used. The candidate names are
//! pairwise distinct (`lemma_candidate_injective`).
use vstd::prelude::*;
use crate::fwmv::PackParams;

verus! {

pub const WIDTH: u32 = 480;

pub const HEIGHT: u32 = 270;

pub const FPS: u32 = 15;

pub const AUDIO_RATE: u32 = 16000;

/// The parameters every conversion packs with: 480x270 at 15/1 fps with
/// 16 kHz audio.
pub fn pack_params() -> (p: PackParams)
    ensures
        p.width == WIDTH,
        p.height == HEIGHT,
        p.fps_num == FPS,
        p.fps_den == 1,
        p.audio_rate == AUDIO_RATE,
{
    PackParams {
        width: WIDTH as u16,
        height: HEIGHT as u16,
        fps_num: FPS as u16,
        fps_den: 1,
        audio_rate: AUDIO_RATE as u16,
    }
}

// ---------------------------------------------------------------------------
// Names
// ---------------------------------------------------------------------------

pub open spec fn digit_char(d: int) -> char {
    if d == 0 {
        '0'
    } else if d == 1 {
        '1'
    } else if d == 2 {
        '2'
    } else if d == 3 {
        '3'
    } else if d == 4 {
        '4'
    } else if d == 5 {
        '5'
    } else if d == 6 {
        '6'
    } else if d == 7 {
        '7'
    } else if d == 8 {
        '8'
    } else {
        '9'
    }
}

/// Decimal digits of `n`, most significant first, without leading zeros.
pub open spec fn decimal(n: nat) -> Seq<char>
    decreases n,
{
    if n < 10 {
        seq![digit_char(n as int)]
    } else {
        decimal(n / 10).push(digit_char(n as int % 10))
    }
}

pub open spec fn fwmv_ext() -> Seq<char> {
    seq!['.', 'f', 'w', 'm', 'v']
}

/// The `attempt`-th candidate name for `stem`: `stem.fwmv`, then
/// `stem_1.fwmv`, `stem_2.fwmv`, ...
pub open spec fn candidate(stem: Seq<char>, attempt: nat) -> Seq<char> {
    if attempt == 0 {
        stem + fwmv_ext()
    } else {
        stem + seq!['_'] + decimal(attempt) + fwmv_ext()
    }
}

/// `name` is one of `taken`.
pub open spec fn is_taken(taken: Seq<String>, name: Seq<char>) -> bool {
    exists|i: int| 0 <= i < taken.len() && #[trigger] taken[i]@ == name
}

/// Candidates are tried up to `stem_2147483647.fwmv` (the largest 32-bit
/// signed suffix); past that the search gives up.
pub const MAX_SUFFIX: usize = 2147483647;

/// Asked about `name`, `on_disk` answered `r`.
pub open spec fn answered<F: Fn(&str) -> bool>(on_disk: F, name: Seq<char>, r: bool) -> bool {
    exists|s: &str| s@ == name && #[trigger] call_ensures(on_disk, (s,), r)
}

/// `name` counts as taken: `on_disk` said a file of that name exists, or the
/// name is reserved.
pub open spec fn seen_taken<F: Fn(&str) -> bool>(on_disk: F, reserved: Seq<String>, name: Seq<char>) -> bool {
    answered(on_disk, name, true) || is_taken(reserved, name)
}

/// `name` is the first candidate for `stem` that `on_disk` reported free and
/// that is not reserved; every earlier candidate counted as taken.
pub open spec fn first_free<F: Fn(&str) -> bool>(
    stem: Seq<char>,
    on_disk: F,
    reserved: Seq<String>,
    name: Seq<char>,
) -> bool {
    exists|a: nat|
        {
            &&& a <= MAX_SUFFIX
            &&& #[trigger] candidate(stem, a) == name
            &&& answered(on_disk, name, false)
            &&& !is_taken(reserved, name)
            &&& forall|b: nat| b < a ==> seen_taken(on_disk, reserved, #[trigger] candidate(stem, b))
        }
}

/// Every candidate up to `MAX_SUFFIX` counted as taken.
pub open spec fn all_taken<F: Fn(&str) -> bool>(stem: Seq<char>, on_disk: F, reserved: Seq<String>) -> bool {
    forall|b: nat| b <= MAX_SUFFIX ==> seen_taken(on_disk, reserved, #[trigger] candidate(stem, b))
}

proof fn lemma_digit_injective(x: int, y: int)
    requires
        0 <= x < 10,
        0 <= y < 10,
        digit_char(x) == digit_char(y),
    ensures
        x == y,
{
    assert('0' as u32 == 48);
    assert('9' as u32 == 57);
    assert(digit_char(x) as u32 == 48 + x);
    assert(digit_char(y) as u32 == 48 + y);
}

/// The number that a string of decimal digits spells, most significant
/// digit first.
pub open spec fn decimal_value(s: Seq<char>) -> int
    decreases s.len(),
{
    if s.len() == 0 {
        0
    } else {
        10 * decimal_value(s.drop_last()) + (s.last() as int - '0' as int)
    }
}

/// `decimal(n)` is the usual base-ten spelling of `n`: every character is a
/// digit `'0'..='9'`, the digits spell `n`, and there is no leading zero.
pub proof fn lemma_decimal_spells(n: nat)
    ensures
        forall|i: int| 0 <= i < decimal(n).len() ==> '0' <= #[trigger] decimal(n)[i] <= '9',
        decimal_value(decimal(n)) == n,
        decimal(n).len() > 1 ==> decimal(n)[0] != '0',
    decreases n,
{
    assert(forall|d: int| 0 <= d < 10 ==> #[trigger] digit_char(d) as int == '0' as int + d);
    lemma_decimal_len(n);
    if n >= 10 {
        lemma_decimal_spells(n / 10);
        lemma_decimal_len(n / 10);
        let s = decimal(n);
        assert(s.drop_last() == decimal(n / 10));
        assert(s[0] == decimal(n / 10)[0]);
        assert(s.last() == digit_char(n as int % 10));
        assert(s.last() as int - '0' as int == n % 10);
        assert(decimal_value(s) == 10 * (n / 10) + n % 10);
    } else {
        let s = decimal(n);
        assert(s.drop_last() =~= Seq::<char>::empty());
        assert(decimal_value(s.drop_last()) == 0);
        assert(s.last() == digit_char(n as int));
    }
}

pub proof fn lemma_decimal_len(n: nat)
    ensures
        decimal(n).len() >= 1,
        n < 10 <==> decimal(n).len() == 1,
    decreases n,
{
    if n >= 10 {
        lemma_decimal_len(n / 10);
    }
}

/// Different numbers have different decimal spellings.
pub proof fn lemma_decimal_injective(a: nat, b: nat)
    requires
        decimal(a) == decimal(b),
    ensures
        a == b,
    decreases a,
{
    lemma_decimal_len(a);
    lemma_decimal_len(b);
    if a < 10 && b < 10 {
        assert(decimal(a)[0] == decimal(b)[0]);
        assert(decimal(a) == seq![digit_char(a as int)]);
        assert(decimal(b) == seq![digit_char(b as int)]);
        assert(decimal(a)[0] == digit_char(a as int));
        assert(decimal(b)[0] == digit_char(b as int));
        lemma_digit_injective(a as int, b as int);
    } else if a >= 10 && b >= 10 {
        let da = decimal(a);
        let db = decimal(b);
        assert(da.last() == db.last());
        assert(da.drop_last() =~= decimal(a / 10));
        assert(db.drop_last() =~= decimal(b / 10));
        lemma_decimal_injective(a / 10, b / 10);
        lemma_digit_injective(a as int % 10, b as int % 10);
    }
}

/// Different attempts give different names: no two candidates for a stem
/// collide.
pub proof fn lemma_candidate_injective(stem: Seq<char>, a: nat, b: nat)
    requires
        candidate(stem, a) == candidate(stem, b),
    ensures
        a == b,
{
    lemma_decimal_len(a);
    lemma_decimal_len(b);
    let ca = candidate(stem, a);
    let cb = candidate(stem, b);
    assert(a != 0 ==> ca.len() == stem.len() + 1 + decimal(a).len() + 5);
    assert(b != 0 ==> cb.len() == stem.len() + 1 + decimal(b).len() + 5);
    assert(a == 0 ==> ca.len() == stem.len() + 5);
    assert(b == 0 ==> cb.len() == stem.len() + 5);
    if a != 0 && b != 0 {
        let lo = stem.len() + 1int;
        assert(decimal(a).len() == decimal(b).len());
        assert(ca.subrange(lo, lo + decimal(a).len() as int) =~= decimal(a));
        assert(cb.subrange(lo, lo + decimal(b).len() as int) =~= decimal(b));
        lemma_decimal_injective(a, b);
    } else if a == 0 && b != 0 {
        assert(ca.len() != cb.len());
    } else if a != 0 && b == 0 {
        assert(ca.len() != cb.len());
    }
}

// ---------------------------------------------------------------------------
// Executable naming
// ---------------------------------------------------------------------------

fn digit_str(d: usize) -> (s: &'static str)
    requires
        d < 10,
    ensures
        s@ == seq![digit_char(d as int)],
{
    proof {
        reveal_strlit("0");
        reveal_strlit("1");
        reveal_strlit("2");
        reveal_strlit("3");
        reveal_strlit("4");
        reveal_strlit("5");
        reveal_strlit("6");
        reveal_strlit("7");
        reveal_strlit("8");
        reveal_strlit("9");
    }
    let s = if d == 0 {
        "0"
    } else if d == 1 {
        "1"
    } else if d == 2 {
        "2"
    } else if d == 3 {
        "3"
    } else if d == 4 {
        "4"
    } else if d == 5 {
        "5"
    } else if d == 6 {
        "6"
    } else if d == 7 {
        "7"
    } else if d == 8 {
        "8"
    } else {
        "9"
    };
    assert(s@ =~= seq![digit_char(d as int)]);
    s
}

fn push_decimal(s: &mut String, n: usize)
    ensures
        final(s)@ == old(s)@ + decimal(n as nat),
    decreases n,
{
    if n >= 10 {
        push_decimal(s, n / 10);
    }
    s.append(digit_str(n % 10));
    assert(final(s)@ =~= old(s)@ + decimal(n as nat));
}

/// The `attempt`-th candidate output name for `stem`: `stem.fwmv` for the
/// first attempt, `stem_<attempt>.fwmv` after that.
pub fn candidate_name(stem: &str, attempt: usize) -> (name: String)
    ensures
        name@ == candidate(stem@, attempt as nat),
{
    proof {
        reveal_strlit(".fwmv");
        reveal_strlit("_");
    }
    let mut name = String::from_str(stem);
    if attempt > 0 {
        name.append("_");
        push_decimal(&mut name, attempt);
    }
    name.append(".fwmv");
    assert(".fwmv"@ =~= fwmv_ext());
    assert(name@ =~= candidate(stem@, attempt as nat));
    name
}

fn contains_name(taken: &Vec<String>, name: &String) -> (found: bool)
    ensures
        found == is_taken(taken@, name@),
{
    let mut i: usize = 0;
    while i < taken.len()
        invariant
            i <= taken@.len(),
            forall|j: int| 0 <= j < i ==> taken@[j]@ != name@,
        decreases taken@.len() - i,
    {
        if taken[i] == *name {
            return true;
        }
        i = i + 1;
    }
    false
}

fn search_name<F: Fn(&str) -> bool>(stem: &str, on_disk: &F, reserved: &Vec<String>) -> (name: Option<String>)
    requires
        forall|s: &str| #[trigger] on_disk.requires((s,)),
    ensures
        match name {
            Some(n) => first_free(stem@, *on_disk, reserved@, n@),
            None => all_taken(stem@, *on_disk, reserved@),
        },
{
    let mut attempt: usize = 0;
    loop
        invariant
            attempt <= MAX_SUFFIX,
            forall|s: &str| #[trigger] on_disk.requires((s,)),
            forall|b: nat| b < attempt ==> seen_taken(*on_disk, reserved@, #[trigger] candidate(stem@, b)),
        decreases MAX_SUFFIX - attempt,
    {
        let name = candidate_name(stem, attempt);
        let s: &str = name.as_str();
        let on = on_disk(s);
        proof {
            assert(s@ == name@ && call_ensures(*on_disk, (s,), on));
            assert(answered(*on_disk, name@, on));
        }
        let reserved_hit = contains_name(reserved, &name);
        if !on && !reserved_hit {
            assert(candidate(stem@, attempt as nat) == name@);
            return Some(name);
        }
        assert(seen_taken(*on_disk, reserved@, candidate(stem@, attempt as nat)));
        if attempt == MAX_SUFFIX {
            return None;
        }
        attempt = attempt + 1;
    }
}

/// The output name for `stem`: the first of `stem.fwmv`, `stem_1.fwmv`,
/// `stem_2.fwmv`, ... for which `on_disk` answers that no such file exists;
/// `None` when every candidate up to `MAX_SUFFIX` is taken.
pub fn output_name<F: Fn(&str) -> bool>(stem: &str, on_disk: &F) -> (name: Option<String>)
    requires
        forall|s: &str| #[trigger] on_disk.requires((s,)),
    ensures
        match name {
            Some(n) => first_free(stem@, *on_disk, Seq::empty(), n@),
            None => all_taken(stem@, *on_disk, Seq::empty()),
        },
{
    let reserved: Vec<String> = Vec::new();
    search_name(stem, on_disk, &reserved)
}

/// Output names for a batch of inputs, assigned in queue order: each input
/// gets the first candidate for its stem that `on_disk` reports free and that
/// no earlier input of the batch was given. `None` when some input finds
/// every candidate taken.
pub fn plan_output_names<F: Fn(&str) -> bool>(stems: &Vec<String>, on_disk: &F) -> (names: Option<Vec<String>>)
    requires
        forall|s: &str| #[trigger] on_disk.requires((s,)),
    ensures
        match names {
            Some(ns) => {
                &&& ns@.len() == stems@.len()
                &&& forall|k: int|
                    0 <= k < ns@.len() ==> first_free(
                        stems@[k]@,
                        *on_disk,
                        ns@.subrange(0, k),
                        #[trigger] ns@[k]@,
                    )
            },
            None => exists|k: int, prev: Seq<String>|
                {
                    &&& 0 <= k < stems@.len()
                    &&& prev.len() == k
                    &&& forall|j: int|
                        0 <= j < k ==> first_free(
                            stems@[j]@,
                            *on_disk,
                            prev.subrange(0, j),
                            #[trigger] prev[j]@,
                        )
                    &&& #[trigger] all_taken(stems@[k]@, *on_disk, prev)
                },
        },
{
    let mut names: Vec<String> = Vec::new();
    let mut k: usize = 0;
    while k < stems.len()
        invariant
            k <= stems@.len(),
            names@.len() == k,
            forall|s: &str| #[trigger] on_disk.requires((s,)),
            forall|j: int|
                0 <= j < k ==> first_free(
                    stems@[j]@,
                    *on_disk,
                    names@.subrange(0, j),
                    #[trigger] names@[j]@,
                ),
        decreases stems@.len() - k,
    {
        match search_name(stems[k].as_str(), on_disk, &names) {
            Some(name) => {
                let ghost prev = names@;
                names.push(name);
                proof {
                    assert(names@.subrange(0, k as int) =~= prev);
                    assert forall|j: int| 0 <= j < k implies names@.subrange(0, j) =~= prev.subrange(0, j) by {}
                }
                k = k + 1;
            },
            None => {
                assert(names@.subrange(0, k as int) =~= names@);
                return None;
            },
        }
    }
    Some(names)
}

/// Names planned for one batch never collide with each other, and each was
/// reported free on disk.
pub proof fn lemma_planned_names_distinct<F: Fn(&str) -> bool>(stems: Seq<String>, on_disk: F, names: Seq<String>)
    requires
        names.len() == stems.len(),
        forall|k: int|
            0 <= k < names.len() ==> first_free(
                stems[k]@,
                on_disk,
                names.subrange(0, k),
                #[trigger] names[k]@,
            ),
    ensures
        forall|k: int| 0 <= k < names.len() ==> answered(on_disk, #[trigger] names[k]@, false),
        forall|j: int, k: int| 0 <= j < k < names.len() ==> names[j]@ != names[k]@,
{
    assert forall|j: int, k: int| 0 <= j < k < names.len() implies names[j]@ != names[k]@ by {
        let t = names.subrange(0, k);
        assert(first_free(stems[k]@, on_disk, t, names[k]@));
        assert(!is_taken(t, names[k]@));
        assert(t[j] == names[j]);
    }
}

} // verus!
