//! Names of the numbered log files, `<id>.log`.
use vstd::prelude::*;

verus! {

/// The decimal digit for `d < 10`.
pub open spec fn digit_char(d: nat) -> char {
    if d == 0 {
        '0'
    } else if d == 1 {
        '1'
    } else if d == 2 {
        '2'
    } else if d == 3 {
        '3'
    } else if d == 4 {
        '4'
    } else if d == 5 {
        '5'
    } else if d == 6 {
        '6'
    } else if d == 7 {
        '7'
    } else if d == 8 {
        '8'
    } else {
        '9'
    }
}

/// The decimal numeral of `n`, without leading zeros.
pub open spec fn decimal(n: nat) -> Seq<char>
    decreases n,
{
    if n < 10 {
        seq![digit_char(n)]
    } else {
        decimal(n / 10).push(digit_char(n % 10))
    }
}

/// The value of a string of decimal digits.
pub open spec fn digits_value(s: Seq<char>) -> nat
    decreases s.len(),
{
    if s.len() == 0 {
        0
    } else {
        digits_value(s.drop_last()) * 10 + ((s.last() as u32) - ('0' as u32)) as nat
    }
}

pub open spec fn is_digit(c: char) -> bool {
    '0' <= c <= '9'
}

/// `.log`
pub open spec fn log_suffix() -> Seq<char> {
    seq!['.', 'l', 'o', 'g']
}

/// The name of log file `id`.
pub open spec fn log_name(id: u64) -> Seq<char> {
    decimal(id as nat) + log_suffix()
}

proof fn lemma_decimal(n: nat)
    ensures
        digits_value(decimal(n)) == n,
        decimal(n).len() >= 1,
        forall|i: int| 0 <= i < decimal(n).len() ==> is_digit(#[trigger] decimal(n)[i]),
    decreases n,
{
    assert((digit_char(n % 10) as u32) == ('0' as u32) + n % 10);
    if n < 10 {
        assert(decimal(n).drop_last() =~= Seq::<char>::empty());
        assert(n % 10 == n);
        assert(decimal(n).last() == digit_char(n));
        assert(digits_value(decimal(n)) == digits_value(Seq::<char>::empty()) * 10 + n);
    }
    if n >= 10 {
        lemma_decimal(n / 10);
        assert(decimal(n).drop_last() =~= decimal(n / 10));
        assert(decimal(n).last() == digit_char(n % 10));
        assert(digits_value(decimal(n)) == digits_value(decimal(n / 10)) * 10 + n % 10);
        assert(n == (n / 10) * 10 + n % 10);
        let d = decimal(n);
        assert forall|i: int| 0 <= i < d.len() implies is_digit(#[trigger] d[i]) by {
            if i < d.len() - 1 {
                assert(d[i] == decimal(n / 10)[i]);
            }
        }
    }
}

proof fn lemma_digits_prefix(s: Seq<char>, i: int)
    requires
        0 <= i <= s.len(),
        forall|j: int| 0 <= j < s.len() ==> is_digit(#[trigger] s[j]),
    ensures
        digits_value(s.take(i)) <= digits_value(s),
    decreases s.len() - i,
{
    if i < s.len() {
        lemma_digits_prefix(s, i + 1);
        assert(s.take(i + 1).drop_last() =~= s.take(i));
        assert(is_digit(s[i]));
    } else {
        assert(s.take(i) =~= s);
    }
}

proof fn lemma_log_name_injective(a: u64, b: u64)
    requires
        log_name(a) == log_name(b),
    ensures
        a == b,
{
    lemma_decimal(a as nat);
    lemma_decimal(b as nat);
    let la = log_name(a);
    assert(la.subrange(0, la.len() - 4) =~= decimal(a as nat));
    assert(la.subrange(0, la.len() - 4) =~= decimal(b as nat));
}

/// The one-digit string of `d < 10`.
fn digit_string(d: u64) -> (r: String)
    requires
        d < 10,
    ensures
        r@ == seq![digit_char(d as nat)],
{
    let r = if d == 0 {
        String::from_str("0")
    } else if d == 1 {
        String::from_str("1")
    } else if d == 2 {
        String::from_str("2")
    } else if d == 3 {
        String::from_str("3")
    } else if d == 4 {
        String::from_str("4")
    } else if d == 5 {
        String::from_str("5")
    } else if d == 6 {
        String::from_str("6")
    } else if d == 7 {
        String::from_str("7")
    } else if d == 8 {
        String::from_str("8")
    } else {
        String::from_str("9")
    };
    proof {
        reveal_strlit("0");
        reveal_strlit("1");
        reveal_strlit("2");
        reveal_strlit("3");
        reveal_strlit("4");
        reveal_strlit("5");
        reveal_strlit("6");
        reveal_strlit("7");
        reveal_strlit("8");
        reveal_strlit("9");
        assert(r@ =~= seq![digit_char(d as nat)]);
    }
    r
}

/// The decimal numeral of `n`, without leading zeros.
fn decimal_string(n: u64) -> (r: String)
    ensures
        r@ == decimal(n as nat),
{
    let mut v = n;
    let mut acc = String::new();
    loop
        invariant
            decimal(n as nat) == decimal(v as nat) + acc@,
        decreases v,
    {
        let d = digit_string(v % 10);
        let next = d.concat(acc.as_str());
        if v < 10 {
            proof {
                assert(v % 10 == v);
                assert(decimal(v as nat) == seq![digit_char(v as nat)]);
            }
            return next;
        }
        proof {
            assert(decimal(v as nat) == decimal((v / 10) as nat).push(digit_char((v % 10) as nat)));
            assert(decimal(n as nat) =~= decimal((v / 10) as nat) + next@);
        }
        acc = next;
        v = v / 10;
    }
}

/// `<id>.log`: the name of log file `id`.
pub fn log_file_name(id: u64) -> (r: String)
    ensures
        r@ == log_name(id),
{
    let d = decimal_string(id);
    let r = d.concat(".log");
    proof {
        reveal_strlit(".log");
    }
    r
}

/// The id of the log file called `name`, if `name` is `<id>.log` for a
/// `u64` id written without leading zeros.
pub fn parse_log_id(name: &str) -> (r: Option<u64>)
    ensures
        forall|id: u64| r == Some(id) <==> name@ == log_name(id),
{
    let n = name.unicode_len();
    if n < 5 {
        proof {
            assert forall|id: u64| name@ != log_name(id) by {
                lemma_decimal(id as nat);
            }
        }
        return None;
    }
    let stem = n - 4;
    let mut v: u64 = 0;
    let mut i: usize = 0;
    while i < stem
        invariant
            stem + 4 == n == name@.len(),
            i <= stem,
            v == digits_value(name@.take(i as int)),
            forall|j: int| 0 <= j < i ==> is_digit(#[trigger] name@[j]),
        decreases stem - i,
    {
        let c = name.get_char(i);
        if c < '0' || c > '9' {
            proof {
                assert forall|id: u64| name@ != log_name(id) by {
                    lemma_decimal(id as nat);
                    if name@ == log_name(id) {
                        let d = decimal(id as nat);
                        if d.len() == stem {
                            assert(name@[i as int] == d[i as int]);
                        } else {
                            assert(log_name(id).len() == d.len() + 4);
                        }
                    }
                }
            }
            return None;
        }
        let d = (c as u32 - '0' as u32) as u64;
        proof {
            assert(name@.take(i + 1).drop_last() =~= name@.take(i as int));
        }
        if v > (u64::MAX - d) / 10 {
            proof {
                assert forall|id: u64| name@ != log_name(id) by {
                    lemma_decimal(id as nat);
                    if name@ == log_name(id) {
                        let dd = decimal(id as nat);
                        assert(dd.len() == stem);
                        assert(name@.take(stem as int) =~= dd);
                        lemma_digits_prefix(dd, i + 1);
                        assert(dd.take(i + 1) =~= name@.take(i + 1));
                        assert(digits_value(name@.take(i + 1)) == v * 10 + d);
                        assert(v * 10 + d > u64::MAX) by (nonlinear_arith)
                            requires
                                v > (u64::MAX - d) / 10,
                                d <= 9,
                        ;
                    }
                }
            }
            return None;
        }
        proof {
            assert(v * 10 + d <= u64::MAX) by (nonlinear_arith)
                requires
                    v <= (u64::MAX - d) / 10,
                    d <= 9,
            ;
        }
        v = v * 10 + d;
        i = i + 1;
    }
    let own = log_file_name(v);
    let given = String::from_str(name);
    if own.eq(&given) {
        proof {
            assert forall|id: u64| name@ == log_name(id) implies id == v by {
                lemma_log_name_injective(v, id);
            }
        }
        Some(v)
    } else {
        proof {
            assert forall|id: u64| name@ != log_name(id) by {
                lemma_decimal(id as nat);
                if name@ == log_name(id) {
                    let dd = decimal(id as nat);
                    assert(dd.len() == stem);
                    assert(name@.take(stem as int) =~= dd);
                }
            }
        }
        None
    }
}

/// A file name that `Path::extension` gives `log` for: it ends in `.log`
/// after at least one other character.
pub open spec fn has_log_extension(name: Seq<char>) -> bool {
    name.len() > 4 && name.subrange(name.len() - 4, name.len() as int) == log_suffix()
}

/// Whether `name` carries the `log` extension.
pub fn is_log_file(name: &str) -> (r: bool)
    ensures
        r == has_log_extension(name@),
{
    let n = name.unicode_len();
    if n <= 4 {
        return false;
    }
    let r = name.get_char(n - 4) == '.' && name.get_char(n - 3) == 'l' && name.get_char(n - 2)
        == 'o' && name.get_char(n - 1) == 'g';
    proof {
        let t = name@.subrange(n - 4, n as int);
        if r {
            assert(t =~= log_suffix());
        } else if t == log_suffix() {
            assert(t[0] == name@[n - 4]);
            assert(t[1] == name@[n - 3]);
            assert(t[2] == name@[n - 2]);
            assert(t[3] == name@[n - 1]);
        }
    }
    r
}

/// A directory entry as the caller listed it.
pub struct FileEntry {
    pub name: String,
    pub is_file: bool,
    pub len: u64,
}

/// A file left empty by a writer that was cut off: a log file of no bytes.
pub open spec fn is_empty_log(e: FileEntry) -> bool {
    e.is_file && has_log_extension(e.name@) && e.len == 0
}

/// The names of the empty log files among `es`, in order.
pub open spec fn empty_log_names(es: Seq<FileEntry>) -> Seq<Seq<char>>
    decreases es.len(),
{
    if es.len() == 0 {
        Seq::empty()
    } else if is_empty_log(es.last()) {
        empty_log_names(es.drop_last()).push(es.last().name@)
    } else {
        empty_log_names(es.drop_last())
    }
}

/// The ids of the log files among `es`, in order.
pub open spec fn entry_log_ids(es: Seq<FileEntry>) -> Seq<u64>
    decreases es.len(),
{
    if es.len() == 0 {
        Seq::empty()
    } else if es.last().is_file && exists|id: u64| es.last().name@ == log_name(id) {
        entry_log_ids(es.drop_last()).push(choose|id: u64| es.last().name@ == log_name(id))
    } else {
        entry_log_ids(es.drop_last())
    }
}

pub open spec fn sorted(s: Seq<u64>) -> bool {
    forall|i: int, j: int| 0 <= i <= j < s.len() ==> s[i] <= s[j]
}

/// The files to delete before a store is opened: the empty log files.
pub fn empty_logs(entries: &Vec<FileEntry>) -> (r: Vec<String>)
    ensures
        r@.len() == empty_log_names(entries@).len(),
        forall|i: int| 0 <= i < r@.len() ==> (#[trigger] r@[i])@ == empty_log_names(entries@)[i],
{
    let mut out: Vec<String> = Vec::new();
    let mut i: usize = 0;
    while i < entries.len()
        invariant
            i <= entries@.len(),
            out@.len() == empty_log_names(entries@.take(i as int)).len(),
            forall|j: int| 0 <= j < out@.len() ==> (#[trigger] out@[j])@ == empty_log_names(
                entries@.take(i as int),
            )[j],
        decreases entries@.len() - i,
    {
        let e = &entries[i];
        proof {
            assert(entries@.take(i + 1).drop_last() =~= entries@.take(i as int));
        }
        if e.is_file && e.len == 0 && is_log_file(e.name.as_str()) {
            out.push(e.name.clone());
        }
        i = i + 1;
    }
    assert(entries@.take(entries@.len() as int) =~= entries@);
    out
}

/// Relies on `slice::sort_unstable`: the same items, in ascending order.
#[verifier::external_body]
fn sort_ids(v: &mut Vec<u64>)
    ensures
        sorted(final(v)@),
        final(v)@.to_multiset() == old(v)@.to_multiset(),
{
    v.sort_unstable()
}

/// The ids of the log files among `entries`, ascending.
pub fn log_ids_of(entries: &Vec<FileEntry>) -> (r: Vec<u64>)
    ensures
        sorted(r@),
        r@.to_multiset() == entry_log_ids(entries@).to_multiset(),
{
    let mut out: Vec<u64> = Vec::new();
    let mut i: usize = 0;
    while i < entries.len()
        invariant
            i <= entries@.len(),
            out@ == entry_log_ids(entries@.take(i as int)),
        decreases entries@.len() - i,
    {
        let e = &entries[i];
        proof {
            assert(entries@.take(i + 1).drop_last() =~= entries@.take(i as int));
        }
        if e.is_file {
            match parse_log_id(e.name.as_str()) {
                Some(id) => {
                    proof {
                        assert(e.name@ == log_name(id));
                        let c = choose|id2: u64| e.name@ == log_name(id2);
                        lemma_log_name_injective(c, id);
                    }
                    out.push(id);
                },
                None => {
                    proof {
                        assert forall|id2: u64| e.name@ != log_name(id2) by {}
                    }
                },
            }
        }
        i = i + 1;
    }
    assert(entries@.take(entries@.len() as int) =~= entries@);
    sort_ids(&mut out);
    out
}

/// The path of log file `id` inside directory `dir`: `<dir>/<id>.log`.
pub open spec fn log_path(dir: Seq<char>, id: u64) -> Seq<char> {
    dir + seq!['/'] + log_name(id)
}

/// The path of log file `id` inside directory `dir`: `<dir>/<id>.log`.
pub fn construct_file(id: u64, dir: &String) -> (r: String)
    ensures
        r@ == log_path(dir@, id),
{
    let name = log_file_name(id);
    let with_slash = dir.clone().concat("/");
    let r = with_slash.concat(name.as_str());
    proof {
        reveal_strlit("/");
        assert(r@ =~= log_path(dir@, id));
    }
    r
}

} // verus!
