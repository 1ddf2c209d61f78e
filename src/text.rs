use vstd::prelude::*;

verus! {

/// The punctuation characters that the normalizer turns into separators.
pub open spec fn is_punct(c: char) -> bool {
    c == ',' || c == '.' || c == '?' || c == '!'
}

/// ASCII whitespace: space, tab, line feed, form feed and carriage return.
pub open spec fn is_ascii_ws(c: char) -> bool {
    c == ' ' || c == '\t' || c == '\n' || c == '\x0C' || c == '\r'
}

/// The separator of a split: any ASCII whitespace, or the space alone.
pub open spec fn is_sep(c: char, any_ws: bool) -> bool {
    if any_ws {
        is_ascii_ws(c)
    } else {
        c == ' '
    }
}

/// The non-empty runs of non-separator characters of `s`, in order, where
/// `cur` is a run already begun before `s`.
pub open spec fn fields_from(s: Seq<char>, cur: Seq<char>, any_ws: bool) -> Seq<Seq<char>>
    decreases s.len(),
{
    if s.len() == 0 {
        if cur.len() > 0 {
            seq![cur]
        } else {
            seq![]
        }
    } else if is_sep(s[0], any_ws) {
        (if cur.len() > 0 {
            seq![cur]
        } else {
            seq![]
        }) + fields_from(s.drop_first(), seq![], any_ws)
    } else {
        fields_from(s.drop_first(), cur.push(s[0]), any_ws)
    }
}

/// The non-empty runs of non-separator characters of `s`, in order.
pub open spec fn fields(s: Seq<char>, any_ws: bool) -> Seq<Seq<char>> {
    fields_from(s, seq![], any_ws)
}

/// `s` with every punctuation character replaced by a space.
pub open spec fn punct_to_space(s: Seq<char>) -> Seq<char> {
    s.map_values(|c: char| if is_punct(c) { ' ' } else { c })
}

/// The lower-case form of a string, as `str::to_lowercase` gives it.
pub uninterp spec fn lower_of(s: Seq<char>) -> Seq<char>;

/// The canonical tokens of one raw token: punctuation becomes a separator,
/// the text is lower-cased, and the whitespace-separated pieces remain.
pub open spec fn normalize(raw: Seq<char>) -> Seq<Seq<char>> {
    fields(lower_of(punct_to_space(raw)), true)
}

/// The views of a vector of strings.
pub open spec fn strings_view(v: Seq<String>) -> Seq<Seq<char>> {
    v.map_values(|s: String| s@)
}

/// Relies on `str::to_lowercase`: its result depends on the characters alone.
#[verifier::external_body]
fn lowercase(s: &str) -> (r: String)
    ensures
        r@ == lower_of(s@),
{
    s.to_lowercase()
}

/// Relies on `str::chars` collected into a vector: the characters of `s`.
#[verifier::external_body]
pub(crate) fn chars_of(s: &str) -> (r: Vec<char>)
    ensures
        r@ == s@,
{
    s.chars().collect()
}

/// Relies on `String::from_iter` over characters: the string of `v`.
#[verifier::external_body]
pub(crate) fn text_of(v: &Vec<char>) -> (r: String)
    ensures
        r@ == v@,
{
    v.iter().collect()
}

/// Splits `s` into its non-empty runs of non-separator characters.
pub fn split_fields(s: &Vec<char>, any_ws: bool) -> (r: Vec<String>)
    ensures
        strings_view(r@) == fields(s@, any_ws),
{
    let mut out: Vec<String> = Vec::new();
    let mut cur: Vec<char> = Vec::new();
    let mut i: usize = 0;
    proof {
        assert(s@.skip(0) =~= s@);
        assert(strings_view(out@) + fields(s@, any_ws) =~= fields(s@, any_ws));
    }
    while i < s.len()
        invariant
            i <= s.len(),
            strings_view(out@) + fields_from(s@.skip(i as int), cur@, any_ws) == fields(s@, any_ws),
        decreases s.len() - i,
    {
        let c = s[i];
        let ghost rest = s@.skip(i as int);
        let ghost next = s@.skip(i + 1);
        proof {
            assert(rest.drop_first() =~= next);
            assert(rest[0] == c);
        }
        let sep = if any_ws {
            c == ' ' || c == '\t' || c == '\n' || c == '\x0C' || c == '\r'
        } else {
            c == ' '
        };
        if sep {
            assert(fields_from(rest, cur@, any_ws) == (if cur@.len() > 0 {
                seq![cur@]
            } else {
                seq![]
            }) + fields_from(next, seq![], any_ws));
            if cur.len() > 0 {
                let t = text_of(&cur);
                proof {
                    assert(strings_view(out@.push(t)) =~= strings_view(out@) + seq![cur@]);
                    assert(strings_view(out@) + (seq![cur@] + fields_from(next, seq![], any_ws))
                        =~= strings_view(out@.push(t)) + fields_from(next, seq![], any_ws));
                }
                out.push(t);
                cur = Vec::new();
                proof {
                    assert(cur@ =~= seq![]);
                }
            } else {
                proof {
                    assert(cur@ =~= seq![]);
                    let e: Seq<Seq<char>> = seq![];
                    assert(e + fields_from(next, seq![], any_ws) =~= fields_from(next, seq![], any_ws));
                }
            }
        } else {
            assert(fields_from(rest, cur@, any_ws) == fields_from(next, cur@.push(c), any_ws));
            cur.push(c);
        }
        assert(strings_view(out@) + fields_from(next, cur@, any_ws) == fields(s@, any_ws));
        i = i + 1;
    }
    if cur.len() > 0 {
        let t = text_of(&cur);
        proof {
            assert(strings_view(out@.push(t)) =~= strings_view(out@) + seq![cur@]);
        }
        out.push(t);
    } else {
        proof {
            assert(strings_view(out@) + seq![] =~= strings_view(out@));
        }
    }
    proof {
        assert(s@.skip(i as int).len() == 0);
    }
    out
}

/// The canonical tokens of one raw token, in order.
pub fn normalize_token(raw: &str) -> (r: Vec<String>)
    ensures
        strings_view(r@) == normalize(raw@),
{
    let cs = chars_of(raw);
    let mut spaced: Vec<char> = Vec::new();
    let mut i: usize = 0;
    while i < cs.len()
        invariant
            i <= cs.len(),
            cs@ == raw@,
            spaced@ == punct_to_space(cs@.take(i as int)),
        decreases cs.len() - i,
    {
        let c = cs[i];
        let d = if c == ',' || c == '.' || c == '?' || c == '!' {
            ' '
        } else {
            c
        };
        spaced.push(d);
        proof {
            assert(punct_to_space(cs@.take(i + 1)) =~= punct_to_space(cs@.take(i as int)).push(d));
        }
        i = i + 1;
    }
    proof {
        assert(cs@.take(i as int) =~= raw@);
    }
    let lowered = lowercase(text_of(&spaced).as_str());
    let low_chars = chars_of(lowered.as_str());
    split_fields(&low_chars, true)
}

/// The character of a decimal digit.
pub open spec fn digit_char(d: nat) -> char {
    if d == 0 {
        '0'
    } else if d == 1 {
        '1'
    } else if d == 2 {
        '2'
    } else if d == 3 {
        '3'
    } else if d == 4 {
        '4'
    } else if d == 5 {
        '5'
    } else if d == 6 {
        '6'
    } else if d == 7 {
        '7'
    } else if d == 8 {
        '8'
    } else {
        '9'
    }
}

/// The decimal numeral of `n`, without leading zeros.
pub open spec fn decimal(n: nat) -> Seq<char>
    decreases n,
{
    if n < 10 {
        seq![digit_char(n)]
    } else {
        decimal(n / 10).push(digit_char(n % 10))
    }
}

fn digit(d: u64) -> (r: char)
    requires
        d < 10,
    ensures
        r == digit_char(d as nat),
{
    if d == 0 {
        '0'
    } else if d == 1 {
        '1'
    } else if d == 2 {
        '2'
    } else if d == 3 {
        '3'
    } else if d == 4 {
        '4'
    } else if d == 5 {
        '5'
    } else if d == 6 {
        '6'
    } else if d == 7 {
        '7'
    } else if d == 8 {
        '8'
    } else {
        '9'
    }
}

/// The decimal numeral of `n`.
pub fn decimal_chars(n: u64) -> (r: Vec<char>)
    ensures
        r@ == decimal(n as nat),
{
    let mut q: u64 = n;
    let mut out: Vec<char> = Vec::new();
    while q >= 10
        invariant
            decimal(n as nat) == decimal(q as nat) + out@,
        decreases q,
    {
        let d = digit(q % 10);
        proof {
            assert(decimal(q as nat) == decimal((q / 10) as nat).push(d));
            assert(decimal((q / 10) as nat).push(d) + out@ =~= decimal((q / 10) as nat) + (seq![d]
                + out@));
        }
        let ghost before = out@;
        out.insert(0, d);
        proof {
            assert(out@ =~= seq![d] + before);
        }
        q = q / 10;
    }
    let d = digit(q);
    let ghost before = out@;
    out.insert(0, d);
    proof {
        assert(out@ =~= seq![d] + before);
        assert(decimal(q as nat) =~= seq![d]);
    }
    out
}

} // verus!
