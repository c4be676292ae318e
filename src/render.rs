//! The text form of paths and leaf values.

use vstd::prelude::*;
use crate::json_path::PathElement;
use crate::token::LeafValue;

verus! {

pub open spec fn digit_char(d: nat) -> char {
    seq!['0', '1', '2', '3', '4', '5', '6', '7', '8', '9'][d as int]
}

/// The decimal numeral of `n`, without leading zeros.
pub open spec fn decimal_text(n: nat) -> Seq<char>
    decreases n,
{
    if n < 10 {
        seq![digit_char(n)]
    } else {
        decimal_text(n / 10) + seq![digit_char(n % 10)]
    }
}

/// The text of one path component: `.name` for a key (`."name"` when the
/// name holds a dot), `[i]` for an array position, nothing otherwise.
pub open spec fn segment_text(e: PathElement) -> Seq<char> {
    match e {
        PathElement::Key(k) => {
            if k@.contains('.') {
                seq!['.', '"'] + k@ + seq!['"']
            } else {
                seq!['.'] + k@
            }
        },
        PathElement::ArrayIndex(i) => seq!['['] + decimal_text(i as nat) + seq![']'],
        _ => Seq::empty(),
    }
}

/// The texts of the components, outermost first.
pub open spec fn joined_text(s: Seq<PathElement>) -> Seq<char>
    decreases s.len(),
{
    if s.len() == 0 {
        Seq::empty()
    } else {
        joined_text(s.drop_last()) + segment_text(s.last())
    }
}

/// The materialized path of a stack: always starts with `.`, and the empty
/// stack is the document root `.`.
pub open spec fn path_text(s: Seq<PathElement>) -> Seq<char> {
    let j = joined_text(s);
    if j.len() > 0 && j[0] == '.' {
        j
    } else {
        seq!['.'] + j
    }
}

/// The canonical text of a leaf value.
pub open spec fn value_text(v: LeafValue) -> Seq<char> {
    match v {
        LeafValue::Null => seq!['n', 'u', 'l', 'l'],
        LeafValue::Bool(b) => if b {
            seq!['t', 'r', 'u', 'e']
        } else {
            seq!['f', 'a', 'l', 's', 'e']
        },
        LeafValue::Number(n) => n@,
        LeafValue::Str(s) => seq!['"'] + s@ + seq!['"'],
        LeafValue::EmptyArray => seq!['[', ']'],
    }
}

/// Rendering of path components and paths as text.
pub trait ToJsonPath {
    spec fn json_path_text(&self) -> Seq<char>;

    fn as_json_path(&self) -> (r: String)
        ensures
            r@ == self.json_path_text(),
    ;
}

fn digit_str(d: usize) -> (r: &'static str)
    requires
        d < 10,
    ensures
        r@ == seq![digit_char(d as nat)],
{
    if d == 0 {
        proof {
            reveal_strlit("0");
            assert("0"@ =~= seq!['0']);
        }
        "0"
    } else if d == 1 {
        proof {
            reveal_strlit("1");
            assert("1"@ =~= seq!['1']);
        }
        "1"
    } else if d == 2 {
        proof {
            reveal_strlit("2");
            assert("2"@ =~= seq!['2']);
        }
        "2"
    } else if d == 3 {
        proof {
            reveal_strlit("3");
            assert("3"@ =~= seq!['3']);
        }
        "3"
    } else if d == 4 {
        proof {
            reveal_strlit("4");
            assert("4"@ =~= seq!['4']);
        }
        "4"
    } else if d == 5 {
        proof {
            reveal_strlit("5");
            assert("5"@ =~= seq!['5']);
        }
        "5"
    } else if d == 6 {
        proof {
            reveal_strlit("6");
            assert("6"@ =~= seq!['6']);
        }
        "6"
    } else if d == 7 {
        proof {
            reveal_strlit("7");
            assert("7"@ =~= seq!['7']);
        }
        "7"
    } else if d == 8 {
        proof {
            reveal_strlit("8");
            assert("8"@ =~= seq!['8']);
        }
        "8"
    } else if d == 9 {
        proof {
            reveal_strlit("9");
            assert("9"@ =~= seq!['9']);
        }
        "9"
    } else {
        proof {
            reveal_strlit("9");
            assert("9"@ =~= seq!['9']);
        }
        "9"
    }
}

/// The decimal numeral of `n`.
pub fn decimal(n: usize) -> (r: String)
    ensures
        r@ == decimal_text(n as nat),
    decreases n,
{
    if n < 10 {
        String::from_str(digit_str(n))
    } else {
        let mut r = decimal(n / 10);
        r.append(digit_str(n % 10));
        r
    }
}

/// Whether the text holds a `.`.
pub fn contains_dot(s: &String) -> (r: bool)
    ensures
        r == s@.contains('.'),
{
    let t = s.as_str();
    let n = t.unicode_len();
    let mut i: usize = 0;
    while i < n
        invariant
            n == t@.len(),
            t@ == s@,
            i <= n,
            forall|j: int| 0 <= j < i ==> t@[j] != '.',
        decreases n - i,
    {
        if t.get_char(i) == '.' {
            assert(s@[i as int] == '.');
            return true;
        }
        i += 1;
    }
    false
}

fn dot() -> (r: &'static str)
    ensures
        r@ == seq!['.'],
{
    proof {
        reveal_strlit(".");
        assert("."@ =~= seq!['.']);
    }
    "."
}

fn quote() -> (r: &'static str)
    ensures
        r@ == seq!['"'],
{
    proof {
        reveal_strlit("\"");
        assert("\""@ =~= seq!['"']);
    }
    "\""
}

impl ToJsonPath for PathElement {
    open spec fn json_path_text(&self) -> Seq<char> {
        segment_text(*self)
    }

    fn as_json_path(&self) -> (r: String) {
        match self {
            PathElement::Key(k) => {
                let mut r = String::from_str(dot());
                if contains_dot(k) {
                    r.append(quote());
                    r.append(k.as_str());
                    r.append(quote());
                } else {
                    r.append(k.as_str());
                }
                r
            },
            PathElement::ArrayIndex(i) => {
                proof {
                    reveal_strlit("[");
                    reveal_strlit("]");
                    assert("["@ =~= seq!['[']);
                    assert("]"@ =~= seq![']']);
                }
                let mut r = String::from_str("[");
                r.append(decimal(*i).as_str());
                r.append("]");
                r
            },
            _ => String::new(),
        }
    }
}

impl LeafValue {
    /// The canonical text of the value: `null`, `true` / `false`, the number
    /// literal, the string in double quotes, or `[]`.
    pub fn to_text(&self) -> (r: String)
        ensures
            r@ == value_text(*self),
    {
        match self {
            LeafValue::Null => {
                proof {
                    reveal_strlit("null");
                    assert("null"@ =~= seq!['n', 'u', 'l', 'l']);
                }
                String::from_str("null")
            },
            LeafValue::Bool(b) => {
                if *b {
                    proof {
                        reveal_strlit("true");
                        assert("true"@ =~= seq!['t', 'r', 'u', 'e']);
                    }
                    String::from_str("true")
                } else {
                    proof {
                        reveal_strlit("false");
                        assert("false"@ =~= seq!['f', 'a', 'l', 's', 'e']);
                    }
                    String::from_str("false")
                }
            },
            LeafValue::Number(n) => n.clone(),
            LeafValue::Str(s) => {
                let mut r = String::from_str(quote());
                r.append(s.as_str());
                r.append(quote());
                r
            },
            LeafValue::EmptyArray => {
                proof {
                    reveal_strlit("[]");
                    assert("[]"@ =~= seq!['[', ']']);
                }
                String::from_str("[]")
            },
        }
    }
}

} // verus!
