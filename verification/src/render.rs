use vstd::prelude::*;
use vstd::string::StringExecFns;

use crate::board::bottles_wf;
use crate::bottle::bottle_wf;
use crate::bottle::content;
use crate::bottle::Bottle;
use crate::color::glyph;
use crate::color::Color;

verus! {

/// The decimal digit `d` (0 through 9) as a character.
pub open spec fn digit_char(d: int) -> char {
    if d == 0 {
        '0'
    } else if d == 1 {
        '1'
    } else if d == 2 {
        '2'
    } else if d == 3 {
        '3'
    } else if d == 4 {
        '4'
    } else if d == 5 {
        '5'
    } else if d == 6 {
        '6'
    } else if d == 7 {
        '7'
    } else if d == 8 {
        '8'
    } else {
        '9'
    }
}

/// The decimal digits of a nonnegative number, most significant first.
pub open spec fn dec_digits(n: int) -> Seq<char>
    decreases n,
{
    if n < 0 {
        Seq::empty()
    } else if n < 10 {
        seq![digit_char(n)]
    } else {
        dec_digits(n / 10) + seq![digit_char(n % 10)]
    }
}

/// One display symbol per unit in the stack, bottom first.
pub open spec fn glyphs_of(cs: Seq<Color>) -> Seq<char> {
    Seq::new(cs.len(), |i: int| glyph(cs[i]))
}

/// One rendered line: the 1-based bottle number, a separator, the bottle's
/// units bottom-to-top, and a line break.
pub open spec fn render_line(i: int, b: Bottle) -> Seq<char> {
    dec_digits(i + 1) + seq![':', ' '] + glyphs_of(content(b)) + seq!['\n']
}

/// The whole board rendered, one line per bottle in board order.
pub open spec fn rendered(s: Seq<Bottle>) -> Seq<char>
    decreases s.len(),
{
    if s.len() == 0 {
        Seq::empty()
    } else {
        rendered(s.drop_last()) + render_line(s.len() - 1, s.last())
    }
}

/// Append one color's display symbol.
fn append_glyph(s: &mut String, c: Color)
    ensures
        final(s)@ == old(s)@ + seq![glyph(c)],
{
    match c {
        Color::Empty => {
            s.append(".");
            proof {
                reveal_strlit(".");
                assert("."@ =~= seq!['.']);
            }
        },
        Color::Blue => {
            s.append("B");
            proof {
                reveal_strlit("B");
                assert("B"@ =~= seq!['B']);
            }
        },
        Color::Red => {
            s.append("R");
            proof {
                reveal_strlit("R");
                assert("R"@ =~= seq!['R']);
            }
        },
        Color::Gray => {
            s.append("K");
            proof {
                reveal_strlit("K");
                assert("K"@ =~= seq!['K']);
            }
        },
        Color::Orange => {
            s.append("O");
            proof {
                reveal_strlit("O");
                assert("O"@ =~= seq!['O']);
            }
        },
        Color::Brown => {
            s.append("W");
            proof {
                reveal_strlit("W");
                assert("W"@ =~= seq!['W']);
            }
        },
        Color::Yellow => {
            s.append("Y");
            proof {
                reveal_strlit("Y");
                assert("Y"@ =~= seq!['Y']);
            }
        },
        Color::Green => {
            s.append("G");
            proof {
                reveal_strlit("G");
                assert("G"@ =~= seq!['G']);
            }
        },
        Color::Magenta => {
            s.append("M");
            proof {
                reveal_strlit("M");
                assert("M"@ =~= seq!['M']);
            }
        },
        Color::Teal => {
            s.append("T");
            proof {
                reveal_strlit("T");
                assert("T"@ =~= seq!['T']);
            }
        },
        Color::Purple => {
            s.append("P");
            proof {
                reveal_strlit("P");
                assert("P"@ =~= seq!['P']);
            }
        },
        Color::LightBlue => {
            s.append("L");
            proof {
                reveal_strlit("L");
                assert("L"@ =~= seq!['L']);
            }
        },
        Color::Peach => {
            s.append("H");
            proof {
                reveal_strlit("H");
                assert("H"@ =~= seq!['H']);
            }
        },
        Color::Olive => {
            s.append("V");
            proof {
                reveal_strlit("V");
                assert("V"@ =~= seq!['V']);
            }
        },
    }
}

/// Append the decimal digits of `n`.
fn append_decimal(s: &mut String, n: usize)
    ensures
        final(s)@ == old(s)@ + dec_digits(n as int),
    decreases n,
{
    if n >= 10 {
        append_decimal(s, n / 10);
    }
    let d = n % 10;
    if d == 0 {
        s.append("0");
        proof {
            reveal_strlit("0");
            assert("0"@ =~= seq!['0']);
        }
    } else if d == 1 {
        s.append("1");
        proof {
            reveal_strlit("1");
            assert("1"@ =~= seq!['1']);
        }
    } else if d == 2 {
        s.append("2");
        proof {
            reveal_strlit("2");
            assert("2"@ =~= seq!['2']);
        }
    } else if d == 3 {
        s.append("3");
        proof {
            reveal_strlit("3");
            assert("3"@ =~= seq!['3']);
        }
    } else if d == 4 {
        s.append("4");
        proof {
            reveal_strlit("4");
            assert("4"@ =~= seq!['4']);
        }
    } else if d == 5 {
        s.append("5");
        proof {
            reveal_strlit("5");
            assert("5"@ =~= seq!['5']);
        }
    } else if d == 6 {
        s.append("6");
        proof {
            reveal_strlit("6");
            assert("6"@ =~= seq!['6']);
        }
    } else if d == 7 {
        s.append("7");
        proof {
            reveal_strlit("7");
            assert("7"@ =~= seq!['7']);
        }
    } else if d == 8 {
        s.append("8");
        proof {
            reveal_strlit("8");
            assert("8"@ =~= seq!['8']);
        }
    } else {
        s.append("9");
        proof {
            reveal_strlit("9");
            assert("9"@ =~= seq!['9']);
        }
    }
    proof {
        assert(s@ =~= old(s)@ + dec_digits(n as int));
    }
}

/// Append one bottle's units, bottom first.
fn append_glyphs(s: &mut String, b: &Bottle)
    requires
        bottle_wf(*b),
    ensures
        final(s)@ == old(s)@ + glyphs_of(content(*b)),
{
    match b.bottom {
        Some(c) => append_glyph(s, c),
        None => {},
    }
    match b.l1 {
        Some(c) => append_glyph(s, c),
        None => {},
    }
    match b.l2 {
        Some(c) => append_glyph(s, c),
        None => {},
    }
    match b.top {
        Some(c) => append_glyph(s, c),
        None => {},
    }
    proof {
        assert(s@ =~= old(s)@ + glyphs_of(content(*b)));
    }
}

/// Render a bottle list as text, one line per bottle.
pub(crate) fn render_bottles(v: &Vec<Bottle>) -> (r: String)
    requires
        bottles_wf(v@),
    ensures
        r@ == rendered(v@),
{
    let ghost bs = v@;
    let mut out = String::new();
    let mut i: usize = 0;
    proof {
        assert(bs.take(0) =~= Seq::<Bottle>::empty());
        assert(out@ =~= rendered(bs.take(0)));
    }
    while i < v.len()
        invariant
            bottles_wf(bs),
            bs == v@,
            i <= bs.len(),
            out@ == rendered(bs.take(i as int)),
        decreases bs.len() - i,
    {
        let ghost line_start = out@;
        append_decimal(&mut out, i + 1);
        out.append(": ");
        proof {
            reveal_strlit(": ");
            assert(": "@ =~= seq![':', ' ']);
        }
        let b = v[i];
        append_glyphs(&mut out, &b);
        out.append("\n");
        proof {
            reveal_strlit("\n");
            assert("\n"@ =~= seq!['\n']);
            assert(out@ =~= line_start + render_line(i as int, bs[i as int]));
            assert(bs.take(i + 1).drop_last() =~= bs.take(i as int));
            assert(bs.take(i + 1).last() == bs[i as int]);
            assert(out@ =~= rendered(bs.take(i + 1)));
        }
        i = i + 1;
    }
    proof {
        assert(bs.take(bs.len() as int) =~= bs);
    }
    out
}

} // verus!
