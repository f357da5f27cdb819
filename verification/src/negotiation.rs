//! Parsing of `Accept-*` style negotiation headers into weighted
//! preferences, and selection of the best supported option.
//!
//! A header is a comma-separated list of items `token[;q=<weight>]`, with
//! optional whitespace around the token. Weights are kept in thousandths
//! (`1000` stands for `q=1.0`), since the selection only ever compares
//! them; a weight that fails to parse falls back to `1.0` by design, and
//! values outside `[0, 2000.000]` are clamped.

use vstd::prelude::*;

use crate::strutil::{before_first, find_char, spec_find, spec_trim, split_on, str_eq, trim};

verus! {

/// One parsed preference: a token and its weight in thousandths.
pub struct NegotiationItem {
    pub name: String,
    pub q: u32,
}

impl View for NegotiationItem {
    type V = (Seq<char>, u32);

    open spec fn view(&self) -> (Seq<char>, u32) {
        (self.name@, self.q)
    }
}

/// An ordered list of preferences, in header order.
pub struct Negotiation {
    pub params: Vec<NegotiationItem>,
}

impl View for Negotiation {
    type V = Seq<(Seq<char>, u32)>;

    open spec fn view(&self) -> Seq<(Seq<char>, u32)> {
        self.params@.map_values(|it: NegotiationItem| it@)
    }
}

pub open spec fn is_digit(c: char) -> bool {
    48 <= c as u32 && c as u32 <= 57
}

pub open spec fn digit_val(c: char) -> int {
    c as u32 - 48
}

pub open spec fn all_digits(s: Seq<char>) -> bool {
    forall|i: int| 0 <= i < s.len() ==> is_digit(s[i])
}

/// The value of the integer digits, accumulated left to right and capped
/// at `10000` so that huge inputs saturate instead of overflowing.
pub open spec fn int_digits_capped(s: Seq<char>) -> int
    decreases s.len(),
{
    if s.len() == 0 {
        0
    } else {
        let v = int_digits_capped(s.drop_last()) * 10 + digit_val(s.last());
        if v > 10000 {
            10000
        } else {
            v
        }
    }
}

/// The value in thousandths of the fraction digits; digits beyond the
/// third are truncated.
pub open spec fn frac_milli(s: Seq<char>) -> int {
    (if s.len() >= 1 {
        digit_val(s[0]) * 100
    } else {
        0
    }) + (if s.len() >= 2 {
        digit_val(s[1]) * 10
    } else {
        0
    }) + (if s.len() >= 3 {
        digit_val(s[2])
    } else {
        0
    })
}

/// Weights are clamped to at most `2000.000`.
pub open spec fn clamp_milli(v: int) -> u32 {
    if v > 2000000 {
        2000000 as u32
    } else {
        v as u32
    }
}

/// An unsigned decimal number `digits`, `digits.digits`, `digits.` or
/// `.digits`, in thousandths; `None` when the text is not of that shape.
pub open spec fn spec_parse_unsigned(s: Seq<char>) -> Option<u32> {
    match spec_find(s, '.') {
        None => if s.len() > 0 && all_digits(s) {
            Some(clamp_milli(int_digits_capped(s) * 1000))
        } else {
            None
        },
        Some(i) => {
            let ip = s.take(i);
            let fp = s.skip(i + 1);
            if ip.len() + fp.len() > 0 && all_digits(ip) && all_digits(fp) {
                Some(clamp_milli(int_digits_capped(ip) * 1000 + frac_milli(fp)))
            } else {
                None
            }
        },
    }
}

/// An optionally signed decimal number in thousandths. A negative weight
/// can never beat the zero baseline, so it floors at zero.
pub open spec fn spec_parse_qvalue(s: Seq<char>) -> Option<u32> {
    if s.len() > 0 && s[0] == '+' {
        spec_parse_unsigned(s.drop_first())
    } else if s.len() > 0 && s[0] == '-' {
        match spec_parse_unsigned(s.drop_first()) {
            Some(_) => Some(0),
            None => None,
        }
    } else {
        spec_parse_unsigned(s)
    }
}

/// The weight of one header item: the value of the `q` parameter between
/// the first and second `;`, or `1000` when it is absent or malformed.
pub open spec fn spec_item_quality(item: Seq<char>) -> u32 {
    match spec_find(item, ';') {
        None => 1000,
        Some(i) => {
            let param = before_first(item.skip(i + 1), ';');
            match spec_find(param, '=') {
                None => 1000,
                Some(j) => if spec_trim(param.take(j)) == seq!['q'] {
                    match spec_parse_qvalue(param.skip(j + 1)) {
                        Some(v) => v,
                        None => 1000,
                    }
                } else {
                    1000
                },
            }
        },
    }
}

/// One header item: the trimmed token before the first `;`, with its weight.
pub open spec fn spec_parse_item(item: Seq<char>) -> (Seq<char>, u32) {
    (spec_trim(before_first(item, ';')), spec_item_quality(item))
}

/// A whole header: every comma-separated item, in header order.
pub open spec fn spec_parse(s: Seq<char>) -> Seq<(Seq<char>, u32)> {
    split_on(s, ',').map_values(|item: Seq<char>| spec_parse_item(item))
}

/// The selection scan: walk the preferences in order, keeping the first
/// token whose weight strictly exceeds the running best and that is
/// available.
pub open spec fn best_from(
    params: Seq<(Seq<char>, u32)>,
    avail: Seq<Seq<char>>,
    cur: Option<Seq<char>>,
    cur_q: u32,
) -> Option<Seq<char>>
    decreases params.len(),
{
    if params.len() == 0 {
        cur
    } else {
        if params[0].1 > cur_q && avail.contains(params[0].0) {
            best_from(params.drop_first(), avail, Some(params[0].0), params[0].1)
        } else {
            best_from(params.drop_first(), avail, cur, cur_q)
        }
    }
}

/// The best available token: the scan started from a zero baseline, so a
/// weight of zero can never be selected.
pub open spec fn spec_best(params: Seq<(Seq<char>, u32)>, avail: Seq<Seq<char>>) -> Option<
    Seq<char>,
> {
    best_from(params, avail, None, 0)
}

/// Validate that `s[a..b]` is all digits and give its capped value.
fn digits_value(s: &str, a: usize, b: usize) -> (r: Option<u32>)
    requires
        a <= b <= s@.len(),
    ensures
        match r {
            Some(v) => all_digits(s@.subrange(a as int, b as int)) && v == int_digits_capped(
                s@.subrange(a as int, b as int),
            ) && v <= 10000,
            None => !all_digits(s@.subrange(a as int, b as int)),
        },
{
    let mut acc: u32 = 0;
    let mut i: usize = a;
    proof {
        assert(s@.subrange(a as int, a as int) =~= Seq::<char>::empty());
    }
    while i < b
        invariant
            a <= i <= b <= s@.len(),
            all_digits(s@.subrange(a as int, i as int)),
            acc == int_digits_capped(s@.subrange(a as int, i as int)),
            acc <= 10000,
        decreases b - i,
    {
        let c = s.get_char(i);
        let u = c as u32;
        if !(48 <= u && u <= 57) {
            proof {
                assert(s@.subrange(a as int, b as int)[i - a] == s@[i as int]);
            }
            return None;
        }
        let d = u - 48;
        let next = acc * 10 + d;
        if next > 10000 {
            acc = 10000;
        } else {
            acc = next;
        }
        proof {
            let pre = s@.subrange(a as int, i as int);
            let post = s@.subrange(a as int, i + 1 as int);
            assert(post.drop_last() =~= pre);
            assert(post.last() == s@[i as int]);
            assert(forall|k: int| 0 <= k < post.len() ==> post[k] == s@[a + k]);
        }
        i = i + 1;
    }
    Some(acc)
}

/// Parse an unsigned decimal weight from all of `s`.
fn parse_unsigned(s: &str) -> (r: Option<u32>)
    ensures
        r == spec_parse_unsigned(s@),
{
    let n = s.unicode_len();
    proof {
        assert(s@.skip(0) =~= s@);
    }
    match find_char(s, 0, '.') {
        None => {
            if n == 0 {
                return None;
            }
            match digits_value(s, 0, n) {
                Some(acc) => {
                    proof {
                        assert(s@.subrange(0, n as int) =~= s@);
                    }
                    let v = acc * 1000;
                    if v > 2000000 {
                        Some(2000000)
                    } else {
                        Some(v)
                    }
                },
                None => {
                    proof {
                        assert(s@.subrange(0, n as int) =~= s@);
                    }
                    None
                },
            }
        },
        Some(dot) => {
            proof {
                assert(s@.take(dot as int) =~= s@.subrange(0, dot as int));
                assert(s@.skip(dot + 1) =~= s@.subrange(dot + 1, n as int));
            }
            if dot == 0 && dot + 1 == n {
                // the input is just "."
                return None;
            }
            let ip = match digits_value(s, 0, dot) {
                Some(v) => v,
                None => {
                    return None;
                },
            };
            let fplen = n - (dot + 1);
            match digits_value(s, dot + 1, n) {
                Some(_) => (),
                None => {
                    return None;
                },
            }
            let ghost fp = s@.skip(dot + 1);
            let mut frac: u32 = 0;
            if fplen >= 1 {
                let c = s.get_char(dot + 1);
                proof {
                    assert(fp[0] == s@[dot + 1]);
                    assert(is_digit(fp[0]));
                }
                frac = frac + (c as u32 - 48) * 100;
            }
            if fplen >= 2 {
                let c = s.get_char(dot + 2);
                proof {
                    assert(fp[1] == s@[dot + 2]);
                    assert(is_digit(fp[1]));
                }
                frac = frac + (c as u32 - 48) * 10;
            }
            if fplen >= 3 {
                let c = s.get_char(dot + 3);
                proof {
                    assert(fp[2] == s@[dot + 3]);
                    assert(is_digit(fp[2]));
                }
                frac = frac + (c as u32 - 48);
            }
            proof {
                assert(frac == frac_milli(fp));
            }
            let v = ip * 1000 + frac;
            if v > 2000000 {
                Some(2000000)
            } else {
                Some(v)
            }
        },
    }
}

/// Parse an optionally signed decimal weight from all of `s`.
fn parse_qvalue(s: &str) -> (r: Option<u32>)
    ensures
        r == spec_parse_qvalue(s@),
{
    let n = s.unicode_len();
    if n > 0 {
        let c0 = s.get_char(0);
        if c0 == '+' {
            let rest = s.substring_char(1, n);
            proof {
                assert(rest@ =~= s@.drop_first());
            }
            return parse_unsigned(rest);
        }
        if c0 == '-' {
            let rest = s.substring_char(1, n);
            proof {
                assert(rest@ =~= s@.drop_first());
            }
            return match parse_unsigned(rest) {
                Some(_) => Some(0),
                None => None,
            };
        }
    }
    parse_unsigned(s)
}

/// Parse one comma-separated header item.
fn parse_item(item: &str) -> (r: NegotiationItem)
    ensures
        r@ == spec_parse_item(item@),
{
    let n = item.unicode_len();
    proof {
        assert(item@.skip(0) =~= item@);
    }
    let semi = find_char(item, 0, ';');
    let token = match semi {
        None => trim(item),
        Some(i) => trim(item.substring_char(0, i)),
    };
    let q: u32 = match semi {
        None => 1000,
        Some(i) => {
            let semi2 = find_char(item, i + 1, ';');
            let param_end = match semi2 {
                Some(j) => j,
                None => n,
            };
            let param = item.substring_char(i + 1, param_end);
            proof {
                assert(param@ =~= before_first(item@.skip(i + 1), ';')) by {
                    match spec_find(item@.skip(i + 1), ';') {
                        Some(jr) => {
                            assert(item@.skip(i + 1).take(jr) =~= item@.subrange(
                                i + 1,
                                i + 1 + jr,
                            ));
                        },
                        None => {
                            assert(item@.skip(i + 1) =~= item@.subrange(i + 1, n as int));
                        },
                    }
                }
                assert(param@.skip(0) =~= param@);
            }
            let plen = param.unicode_len();
            match find_char(param, 0, '=') {
                None => 1000,
                Some(j) => {
                    let key = trim(param.substring_char(0, j));
                    proof {
                        assert(param@.subrange(0, j as int) =~= param@.take(j as int));
                        reveal_strlit("q");
                        assert("q"@ =~= seq!['q']);
                    }
                    if str_eq(key, "q") {
                        let value = param.substring_char(j + 1, plen);
                        proof {
                            assert(value@ =~= param@.skip(j + 1));
                        }
                        match parse_qvalue(value) {
                            Some(v) => v,
                            None => 1000,
                        }
                    } else {
                        1000
                    }
                },
            }
        },
    };
    proof {
        match semi {
            None => {},
            Some(i) => {
                assert(item@.subrange(0, i as int) =~= item@.take(i as int));
            },
        }
    }
    NegotiationItem { name: token.to_owned(), q }
}

impl Negotiation {
    /// Build a negotiation directly from an already-parsed preference list.
    pub fn from_items(params: Vec<NegotiationItem>) -> (r: Negotiation)
        ensures
            r.params@ == params@,
    {
        Negotiation { params }
    }

    /// Parse a raw header value into its ordered preference list.
    ///
    /// Parsing is total: malformed weights fall back to `1.0` and are never
    /// an error, by design.
    pub fn parse(accept: String) -> (r: Self)
        ensures
            r@ == spec_parse(accept@),
    {
        let s = accept.as_str();
        let n = s.unicode_len();
        let mut params: Vec<NegotiationItem> = Vec::new();
        let mut p: usize = 0;
        let mut done: bool = false;
        proof {
            assert(s@.skip(0) =~= s@);
        }
        while !done
            invariant
                p <= n,
                n == s@.len(),
                !done ==> spec_parse(s@) =~~= params@.map_values(|it: NegotiationItem| it@)
                    + split_on(s@.skip(p as int), ',').map_values(
                    |item: Seq<char>| spec_parse_item(item),
                ),
                done ==> spec_parse(s@) =~~= params@.map_values(|it: NegotiationItem| it@),
            decreases n - p + (if done {
                0int
            } else {
                1int
            }),
        {
            let ghost rest = s@.skip(p as int);
            let ghost old_params = params@;
            match find_char(s, p, ',') {
                Some(j) => {
                    let piece = s.substring_char(p, j);
                    proof {
                        assert(piece@ =~= rest.take(j - p));
                    }
                    let it = parse_item(piece);
                    params.push(it);
                    proof {
                        assert(rest.skip((j - p) + 1) =~= s@.skip(j + 1));
                        assert(split_on(rest, ',') =~~= seq![rest.take(j - p)] + split_on(
                            s@.skip(j + 1),
                            ',',
                        ));
                        assert(params@.map_values(|x: NegotiationItem| x@) =~~=
                            old_params.map_values(|x: NegotiationItem| x@) + seq![it@]);
                        assert(spec_parse(s@) =~~= params@.map_values(|x: NegotiationItem| x@)
                            + split_on(s@.skip(j + 1), ',').map_values(
                            |item: Seq<char>| spec_parse_item(item),
                        ));
                    }
                    p = j + 1;
                },
                None => {
                    let piece = s.substring_char(p, n);
                    proof {
                        assert(piece@ =~= rest);
                        assert(split_on(rest, ',') =~~= seq![rest]);
                    }
                    let it = parse_item(piece);
                    params.push(it);
                    proof {
                        assert(params@.map_values(|x: NegotiationItem| x@) =~~=
                            old_params.map_values(|x: NegotiationItem| x@) + seq![it@]);
                        assert(spec_parse(s@) =~~= params@.map_values(|x: NegotiationItem| x@));
                    }
                    done = true;
                },
            }
        }
        Negotiation { params }
    }

    /// Select the best available token: highest weight wins, the earliest
    /// item wins ties, and a zero weight is never selected.
    pub fn best(&self, available: &[&str]) -> (r: Option<&String>)
        ensures
            match r {
                Some(name) => spec_best(self@, available@.map_values(|t: &str| t@)) == Some(
                    name@,
                ),
                None => spec_best(self@, available@.map_values(|t: &str| t@)) is None,
            },
    {
        let ghost avail = available@.map_values(|t: &str| t@);
        let mut best_idx: Option<usize> = None;
        let mut best_q: u32 = 0;
        let m = self.params.len();
        let mut i: usize = 0;
        proof {
            assert(self@.skip(0) =~= self@);
        }
        while i < m
            invariant
                i <= m,
                m == self.params@.len(),
                avail == available@.map_values(|t: &str| t@),
                match best_idx {
                    Some(k) => k < i && spec_best(self@, avail) == best_from(
                        self@.skip(i as int),
                        avail,
                        Some(self@[k as int].0),
                        best_q,
                    ),
                    None => spec_best(self@, avail) == best_from(
                        self@.skip(i as int),
                        avail,
                        None,
                        best_q,
                    ) && best_q == 0,
                },
            decreases m - i,
        {
            let ghost pre = self@.skip(i as int);
            proof {
                assert(pre[0] == self@[i as int]);
                assert(pre.drop_first() =~= self@.skip(i + 1));
            }
            let item = &self.params[i];
            if item.q > best_q {
                if contains_str(available, item.name.as_str()) {
                    best_idx = Some(i);
                    best_q = item.q;
                }
            }
            i = i + 1;
        }
        match best_idx {
            Some(k) => Some(&self.params[k].name),
            None => None,
        }
    }
}

/// Linear scan for a token among the available ones.
fn contains_str(available: &[&str], t: &str) -> (r: bool)
    ensures
        r == available@.map_values(|x: &str| x@).contains(t@),
{
    let ghost avail = available@.map_values(|x: &str| x@);
    proof {
        assert(forall|k: int| 0 <= k < available@.len() ==> avail[k] == available@[k]@);
    }
    let n = available.len();
    let mut i: usize = 0;
    while i < n
        invariant
            i <= n,
            n == available@.len(),
            avail == available@.map_values(|x: &str| x@),
            forall|k: int| 0 <= k < i ==> avail[k] != t@,
        decreases n - i,
    {
        if str_eq(available[i], t) {
            proof {
                assert(avail[i as int] == t@);
            }
            return true;
        }
        i = i + 1;
    }
    proof {
        assert(forall|k: int| 0 <= k < avail.len() ==> avail[k] != t@);
    }
    false
}

} // verus!
