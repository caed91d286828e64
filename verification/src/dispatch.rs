use vstd::prelude::*;

verus! {

/// Unicode's `White_Space` characters, the ones `char::is_whitespace` accepts.
pub open spec fn is_white_space(c: char) -> bool {
    let u = c as u32;
    ||| 0x9 <= u <= 0xD
    ||| u == 0x20
    ||| u == 0x85
    ||| u == 0xA0
    ||| u == 0x1680
    ||| 0x2000 <= u <= 0x200A
    ||| u == 0x2028
    ||| u == 0x2029
    ||| u == 0x202F
    ||| u == 0x205F
    ||| u == 0x3000
}

/// `s` without its leading white space.
pub open spec fn trim_start(s: Seq<char>) -> Seq<char>
    decreases s.len(),
{
    if s.len() > 0 && is_white_space(s[0]) {
        trim_start(s.drop_first())
    } else {
        s
    }
}

/// `s` without its trailing white space.
pub open spec fn trim_end(s: Seq<char>) -> Seq<char>
    decreases s.len(),
{
    if s.len() > 0 && is_white_space(s.last()) {
        trim_end(s.drop_last())
    } else {
        s
    }
}

/// `s` without its leading and trailing white space, as `str::trim` gives it.
pub open spec fn trim(s: Seq<char>) -> Seq<char> {
    trim_end(trim_start(s))
}

/// An entry of the comma-separated list `s` starts at `a`: at the start of
/// `s`, or right after a comma.
pub open spec fn entry_starts(s: Seq<char>, a: int) -> bool {
    a == 0 || (0 < a <= s.len() && s[a - 1] == ',')
}

/// Where the entry of `s` that reaches index `a` ends: at the first comma at or
/// after `a`, or at the end of `s`.
pub open spec fn entry_end(s: Seq<char>, a: int) -> int
    decreases s.len() - a,
{
    if a >= s.len() {
        s.len() as int
    } else if s[a] == ',' {
        a
    } else {
        entry_end(s, a + 1)
    }
}

/// Some entry of the comma-separated list `list`, trimmed, is `name`; the
/// entries are those `str::split(',')` yields.
pub open spec fn listed(list: Seq<char>, name: Seq<char>) -> bool {
    exists|a: int| #[trigger] entry_starts(list, a) && trim(list.subrange(a, entry_end(list, a))) == name
}

/// Whether a component named `name` has its constraints evaluated on the CPU
/// rather than by a device kernel, given the settings `CUDA_CPU_FALLBACK`,
/// `CUDA_ONLY` and `CUDA_EXCEPT` (`None` where unset). The first setting that
/// is present decides: `CUDA_CPU_FALLBACK` set to `1` or empty sends every
/// component to the CPU, set to a name it sends all but that component;
/// `CUDA_ONLY` sends all but the listed components; `CUDA_EXCEPT` sends just
/// the listed ones. With none set, every component runs on the device.
pub open spec fn use_cpu_spec(
    fallback: Option<Seq<char>>,
    only: Option<Seq<char>>,
    except: Option<Seq<char>>,
    name: Seq<char>,
) -> bool {
    match fallback {
        Some(v) => if v == seq!['1'] || v.len() == 0 {
            true
        } else {
            name != v
        },
        None => match only {
            Some(list) => !listed(list, name),
            None => match except {
                Some(list) => listed(list, name),
                None => false,
            },
        },
    }
}

/// The characters of an optional string.
pub open spec fn opt_chars(o: Option<&str>) -> Option<Seq<char>> {
    match o {
        Some(s) => Some(s@),
        None => None,
    }
}

/// The characters in `s`, in order.
fn chars_of(s: &str) -> (r: Vec<char>)
    ensures
        r@ == s@,
{
    let mut v: Vec<char> = Vec::new();
    for c in it: s.chars()
        invariant
            v@ == it.seq().take(it.index() as int),
    {
        v.push(c);
    }
    v
}

/// Whether `c` is white space, as `char::is_whitespace` decides.
fn is_whitespace_char(c: char) -> (r: bool)
    ensures
        r == is_white_space(c),
{
    let u = c as u32;
    (0x9 <= u && u <= 0xD) || u == 0x20 || u == 0x85 || u == 0xA0 || u == 0x1680 || (0x2000 <= u && u
        <= 0x200A) || u == 0x2028 || u == 0x2029 || u == 0x202F || u == 0x205F || u == 0x3000
}

/// Whether `a[lo..hi]` and `b` hold the same characters.
fn range_equals(a: &Vec<char>, lo: usize, hi: usize, b: &Vec<char>) -> (r: bool)
    requires
        lo <= hi <= a.len(),
    ensures
        r == (a@.subrange(lo as int, hi as int) == b@),
{
    if hi - lo != b.len() {
        return false;
    }
    let mut k: usize = 0;
    while k < b.len()
        invariant
            lo <= hi <= a.len(),
            hi - lo == b.len(),
            k <= b.len(),
            forall|j: int| 0 <= j < k ==> a@[lo + j] == b@[j],
        decreases b.len() - k,
    {
        if a[lo + k] != b[k] {
            assert(a@.subrange(lo as int, hi as int)[k as int] != b@[k as int]);
            return false;
        }
        k = k + 1;
    }
    assert(a@.subrange(lo as int, hi as int) =~= b@);
    true
}

/// Whether `s[lo..hi]`, trimmed, is `name`.
fn trimmed_equals(s: &Vec<char>, lo: usize, hi: usize, name: &Vec<char>) -> (r: bool)
    requires
        lo <= hi <= s.len(),
    ensures
        r == (trim(s@.subrange(lo as int, hi as int)) == name@),
{
    let mut a: usize = lo;
    while a < hi && is_whitespace_char(s[a])
        invariant
            lo <= a <= hi <= s.len(),
            trim_start(s@.subrange(lo as int, hi as int)) == trim_start(s@.subrange(a as int, hi as int)),
        decreases hi - a,
    {
        assert(s@.subrange(a as int, hi as int).drop_first() =~= s@.subrange(a + 1, hi as int));
        a = a + 1;
    }
    assert(trim_start(s@.subrange(a as int, hi as int)) == s@.subrange(a as int, hi as int));
    let mut b: usize = hi;
    while b > a && is_whitespace_char(s[b - 1])
        invariant
            a <= b <= hi <= s.len(),
            trim_end(s@.subrange(a as int, hi as int)) == trim_end(s@.subrange(a as int, b as int)),
        decreases b - a,
    {
        assert(s@.subrange(a as int, b as int).drop_last() =~= s@.subrange(a as int, b - 1));
        b = b - 1;
    }
    assert(trim_end(s@.subrange(a as int, b as int)) == s@.subrange(a as int, b as int));
    range_equals(s, a, b, name)
}

/// Whether some entry of the comma-separated `list`, trimmed, is `name`.
fn is_listed(list: &Vec<char>, name: &Vec<char>) -> (r: bool)
    ensures
        r == listed(list@, name@),
{
    let mut start: usize = 0;
    let mut i: usize = 0;
    while i < list.len()
        invariant
            start <= i <= list.len(),
            entry_starts(list@, start as int),
            forall|j: int| start <= j < i ==> list@[j] != ',',
            entry_end(list@, start as int) == entry_end(list@, i as int),
            forall|a: int|
                #[trigger] entry_starts(list@, a) && a < start ==> trim(list@.subrange(a, entry_end(list@, a)))
                    != name@,
        decreases list.len() - i,
    {
        if list[i] == ',' {
            if trimmed_equals(list, start, i, name) {
                assert(entry_starts(list@, start as int));
                return true;
            }
            let ghost old_start = start as int;
            start = i + 1;
            assert forall|a: int| #[trigger] entry_starts(list@, a) && a < start implies trim(
                list@.subrange(a, entry_end(list@, a)),
            ) != name@ by {
                if old_start < a {
                    assert(list@[a - 1] != ',');
                }
            }
        }
        i = i + 1;
    }
    let r = trimmed_equals(list, start, list.len(), name);
    if r {
        assert(entry_starts(list@, start as int));
    } else {
        assert forall|a: int| #[trigger] entry_starts(list@, a) implies trim(list@.subrange(a, entry_end(list@, a)))
            != name@ by {
            if start < a {
                assert(list@[a - 1] != ',');
            }
        }
    }
    r
}

/// Whether a component named `component` has its constraints evaluated on the
/// CPU, from the settings `CUDA_CPU_FALLBACK`, `CUDA_ONLY` and `CUDA_EXCEPT`
/// (`None` where unset); see `use_cpu_spec`.
pub fn use_cpu_fallback(
    cpu_fallback: Option<&str>,
    cuda_only: Option<&str>,
    cuda_except: Option<&str>,
    component: &str,
) -> (r: bool)
    ensures
        r == use_cpu_spec(opt_chars(cpu_fallback), opt_chars(cuda_only), opt_chars(cuda_except), component@),
{
    let name = chars_of(component);
    match cpu_fallback {
        Some(v) => {
            let v = chars_of(v);
            if v.len() == 0 || (v.len() == 1 && v[0] == '1') {
                assert(v@.len() == 1 && v@[0] == '1' ==> v@ =~= seq!['1']);
                true
            } else {
                assert(v@ != seq!['1']);
                assert(name@.subrange(0, name@.len() as int) =~= name@);
                !range_equals(&name, 0, name.len(), &v)
            }
        },
        None => match cuda_only {
            Some(list) => !is_listed(&chars_of(list), &name),
            None => match cuda_except {
                Some(list) => is_listed(&chars_of(list), &name),
                None => false,
            },
        },
    }
}

proof fn lemma_entry_end_no_comma(s: Seq<char>, a: int)
    requires
        0 <= a <= s.len(),
        forall|j: int| a <= j < s.len() ==> s[j] != ',',
    ensures
        entry_end(s, a) == s.len(),
    decreases s.len() - a,
{
    if a < s.len() {
        lemma_entry_end_no_comma(s, a + 1);
    }
}

proof fn lemma_entry_end_at_comma(s: Seq<char>, a: int, e: int)
    requires
        0 <= a <= e < s.len(),
        s[e] == ',',
        forall|j: int| a <= j < e ==> s[j] != ',',
    ensures
        entry_end(s, a) == e,
    decreases e - a,
{
    if a < e {
        lemma_entry_end_at_comma(s, a + 1, e);
    }
}

/// A name with no comma and no white space at either end is listed by a
/// list holding just that name, by a list starting with it followed by a
/// comma, and by a list ending with a comma followed by it, whatever the
/// other entries are; and it is listed with white space around it too.
pub proof fn lemma_name_is_listed(name: Seq<char>, other: Seq<char>, pad: Seq<char>)
    requires
        forall|j: int| 0 <= j < name.len() ==> name[j] != ',',
        name.len() > 0 ==> !is_white_space(name[0]) && !is_white_space(name.last()),
        forall|j: int| 0 <= j < pad.len() ==> is_white_space(#[trigger] pad[j]) && pad[j] != ',',
    ensures
        listed(name, name),
        listed(name + seq![','] + other, name),
        listed(other + seq![','] + name, name),
        listed(pad + name + pad, name),
{
    lemma_trim_bare(name);
    // The list is the name.
    lemma_entry_end_no_comma(name, 0);
    assert(name.subrange(0, name.len() as int) =~= name);
    assert(entry_starts(name, 0));
    // The name, a comma, then other entries.
    let s1 = name + seq![','] + other;
    lemma_entry_end_at_comma(s1, 0, name.len() as int);
    assert(s1.subrange(0, name.len() as int) =~= name);
    assert(entry_starts(s1, 0));
    // Other entries, a comma, then the name.
    let s2 = other + seq![','] + name;
    let a: int = other.len() as int + 1;
    lemma_entry_end_no_comma(s2, a);
    assert(s2.subrange(a, s2.len() as int) =~= name);
    assert(entry_starts(s2, a));
    // White space around the name.
    let s3 = pad + name + pad;
    lemma_entry_end_no_comma(s3, 0);
    assert(s3.subrange(0, s3.len() as int) =~= s3);
    lemma_trim_padded(name, pad);
    assert(entry_starts(s3, 0));
}

proof fn lemma_trim_bare(name: Seq<char>)
    requires
        name.len() > 0 ==> !is_white_space(name[0]) && !is_white_space(name.last()),
    ensures
        trim(name) == name,
{
}

proof fn lemma_trim_start_pad(pad: Seq<char>, rest: Seq<char>)
    requires
        forall|j: int| 0 <= j < pad.len() ==> is_white_space(#[trigger] pad[j]),
    ensures
        trim_start(pad + rest) == trim_start(rest),
    decreases pad.len(),
{
    if pad.len() > 0 {
        assert((pad + rest)[0] == pad[0]);
        assert((pad + rest).drop_first() =~= pad.drop_first() + rest);
        lemma_trim_start_pad(pad.drop_first(), rest);
    } else {
        assert(pad + rest =~= rest);
    }
}

proof fn lemma_trim_end_pad(rest: Seq<char>, pad: Seq<char>)
    requires
        forall|j: int| 0 <= j < pad.len() ==> is_white_space(#[trigger] pad[j]),
    ensures
        trim_end(rest + pad) == trim_end(rest),
    decreases pad.len(),
{
    if pad.len() > 0 {
        assert((rest + pad).last() == pad.last());
        assert((rest + pad).drop_last() =~= rest + pad.drop_last());
        lemma_trim_end_pad(rest, pad.drop_last());
    } else {
        assert(rest + pad =~= rest);
    }
}

proof fn lemma_trim_padded(name: Seq<char>, pad: Seq<char>)
    requires
        name.len() > 0 ==> !is_white_space(name[0]) && !is_white_space(name.last()),
        forall|j: int| 0 <= j < pad.len() ==> is_white_space(#[trigger] pad[j]),
    ensures
        trim(pad + name + pad) == name,
{
    lemma_trim_start_pad(pad, name + pad);
    assert(pad + name + pad =~= pad + (name + pad));
    if name.len() > 0 {
        assert((name + pad)[0] == name[0]);
        assert(trim_start(name + pad) == name + pad);
        lemma_trim_end_pad(name, pad);
    } else {
        assert(name + pad =~= pad);
        lemma_trim_start_all(pad);
        assert(trim_end(Seq::<char>::empty()) == Seq::<char>::empty());
        assert(name =~= Seq::<char>::empty());
    }
}

proof fn lemma_trim_start_all(pad: Seq<char>)
    requires
        forall|j: int| 0 <= j < pad.len() ==> is_white_space(#[trigger] pad[j]),
    ensures
        trim_start(pad) == Seq::<char>::empty(),
    decreases pad.len(),
{
    if pad.len() > 0 {
        lemma_trim_start_all(pad.drop_first());
    } else {
        assert(pad =~= Seq::<char>::empty());
    }
}

/// How the three settings decide: `CUDA_CPU_FALLBACK` set to `1` or empty
/// sends every component to the CPU and set to a component's name keeps
/// exactly that component on the device; otherwise `CUDA_ONLY` keeps exactly
/// the listed components on the device; otherwise `CUDA_EXCEPT` sends exactly
/// the listed ones to the CPU; with none set, nothing goes to the CPU.
pub proof fn lemma_fallback_settings(
    fallback: Option<Seq<char>>,
    only: Option<Seq<char>>,
    except: Option<Seq<char>>,
    name: Seq<char>,
)
    ensures
        fallback == Some(seq!['1']) ==> use_cpu_spec(fallback, only, except, name),
        fallback == Some(Seq::<char>::empty()) ==> use_cpu_spec(fallback, only, except, name),
        fallback == Some(name) && name != seq!['1'] && name.len() > 0 ==> !use_cpu_spec(fallback, only, except, name),
        (fallback matches Some(v) && v != seq!['1'] && v.len() > 0 && v != name) ==> use_cpu_spec(fallback, only, except, name),
        fallback is None && (only matches Some(l) && listed(l, name)) ==> !use_cpu_spec(fallback, only, except, name),
        fallback is None && (only matches Some(l) && !listed(l, name)) ==> use_cpu_spec(fallback, only, except, name),
        fallback is None && only is None && (except matches Some(l) && listed(l, name)) ==> use_cpu_spec(fallback, only, except, name),
        fallback is None && only is None && (except matches Some(l) && !listed(l, name)) ==> !use_cpu_spec(fallback, only, except, name),
        fallback is None && only is None && except is None ==> !use_cpu_spec(fallback, only, except, name),
{
    assert(seq!['1'].len() == 1);
}

} // verus!
