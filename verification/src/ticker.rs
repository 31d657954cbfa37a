//! Conversion of broker ticker codes into market-data ticker codes.

use crate::text::characters;
use vstd::prelude::*;
use vstd::string::*;

verus! {

/// Whether the instrument marker `_EQ` stands at a place of the text.
pub open spec fn marker_at(text: Seq<char>, at: int) -> bool {
    &&& 0 <= at
    &&& at + 3 <= text.len()
    &&& text[at] == '_'
    &&& text[at + 1] == 'E'
    &&& text[at + 2] == 'Q'
}

/// The last place at or before `from` at which the marker stands.
pub open spec fn last_marker(text: Seq<char>, from: int) -> Option<int>
    decreases from + 1,
{
    if from < 0 {
        None
    } else if marker_at(text, from) {
        Some(from)
    } else {
        last_marker(text, from - 1)
    }
}

/// The first place at or after `from` at which an underscore stands.
pub open spec fn first_underscore(text: Seq<char>, from: int) -> Option<int>
    decreases text.len() - from,
{
    if from < 0 || from >= text.len() {
        None
    } else if text[from] == '_' {
        Some(from)
    } else {
        first_underscore(text, from + 1)
    }
}

/// The market-data suffix of an exchange, by the letter that the broker
/// appends to the symbol.
pub open spec fn exchange_suffix(letter: char) -> Option<Seq<char>> {
    if letter == 'a' {
        Some("AS"@)
    } else if letter == 'd' {
        Some("DE"@)
    } else if letter == 'e' {
        Some("MC"@)
    } else if letter == 'p' {
        Some("PA"@)
    } else if letter == 'l' {
        Some("L"@)
    } else if letter == 's' {
        Some("SW"@)
    } else if letter == 'm' {
        Some("MI"@)
    } else {
        None
    }
}

/// The market-data suffix of a country, by the code that the broker appends
/// after an underscore.
pub open spec fn country_suffix(code: Seq<char>) -> Option<Seq<char>> {
    if code == seq!['P', 'T'] {
        Some("LS"@)
    } else if code == seq!['A', 'T'] {
        Some("VI"@)
    } else if code == seq!['B', 'E'] {
        Some("BR"@)
    } else if code == seq!['C', 'A'] {
        Some("TO"@)
    } else {
        None
    }
}

/// The market-data ticker of a broker ticker.
///
/// What stands before the last `_EQ` is the stem. A stem without an
/// underscore ends in the letter of its exchange: the letter is replaced by
/// a dot and the exchange's suffix. A stem with one underscore ends in a
/// country code: `US` leaves the bare symbol, any other known code is
/// replaced by a dot and the country's suffix. A ticker without the marker,
/// or a stem with more underscores, gives the empty ticker. There is no
/// conversion where the stem is empty or its exchange or country is unknown.
pub open spec fn yahoo_ticker(ticker: Seq<char>) -> Option<Seq<char>> {
    match last_marker(ticker, ticker.len() - 3) {
        None => Some(Seq::empty()),
        Some(end) => {
            let stem = ticker.subrange(0, end);
            match first_underscore(stem, 0) {
                None => if stem.len() == 0 {
                    None
                } else {
                    match exchange_suffix(stem.last()) {
                        None => None,
                        Some(suffix) => Some(stem.drop_last() + "."@ + suffix),
                    }
                },
                Some(cut) => match first_underscore(stem, cut + 1) {
                    Some(_) => Some(Seq::empty()),
                    None => {
                        let symbol = stem.subrange(0, cut);
                        let country = stem.subrange(cut + 1, stem.len() as int);
                        if country == seq!['U', 'S'] {
                            Some(symbol)
                        } else {
                            match country_suffix(country) {
                                None => None,
                                Some(suffix) => Some(symbol + "."@ + suffix),
                            }
                        }
                    },
                },
            }
        },
    }
}

/// The last place at which the marker stands.
fn find_marker(text: &Vec<char>) -> (r: Option<usize>)
    ensures
        match r {
            Some(at) => last_marker(text@, text.len() - 3) == Some(at as int) && at + 3
                <= text.len(),
            None => last_marker(text@, text.len() - 3).is_none(),
        },
{
    if text.len() < 3 {
        return None;
    }
    let mut at: usize = text.len() - 3;
    loop
        invariant
            at + 3 <= text.len(),
            last_marker(text@, text.len() - 3) == last_marker(text@, at as int),
        decreases at,
    {
        if text[at] == '_' && text[at + 1] == 'E' && text[at + 2] == 'Q' {
            return Some(at);
        }
        if at == 0 {
            assert(last_marker(text@, -1).is_none());
            return None;
        }
        at -= 1;
    }
}

/// The first place from `from` on, and before `end`, at which an underscore
/// stands.
fn find_underscore(text: &Vec<char>, from: usize, end: usize) -> (r: Option<usize>)
    requires
        from <= end <= text.len(),
    ensures
        match r {
            Some(at) => first_underscore(text@.subrange(0, end as int), from as int) == Some(
                at as int,
            ) && from <= at < end,
            None => first_underscore(text@.subrange(0, end as int), from as int).is_none(),
        },
{
    let ghost stem = text@.subrange(0, end as int);
    let mut at: usize = from;
    while at < end
        invariant
            from <= at <= end,
            end <= text.len(),
            stem == text@.subrange(0, end as int),
            first_underscore(stem, from as int) == first_underscore(stem, at as int),
        decreases end - at,
    {
        assert(stem[at as int] == text[at as int]);
        if text[at] == '_' {
            return Some(at);
        }
        at += 1;
    }
    None
}

/// The suffix of an exchange letter, as text.
fn exchange_of(letter: char) -> (r: Option<&'static str>)
    ensures
        match r {
            Some(suffix) => exchange_suffix(letter) == Some(suffix@),
            None => exchange_suffix(letter).is_none(),
        },
{
    if letter == 'a' {
        Some("AS")
    } else if letter == 'd' {
        Some("DE")
    } else if letter == 'e' {
        Some("MC")
    } else if letter == 'p' {
        Some("PA")
    } else if letter == 'l' {
        Some("L")
    } else if letter == 's' {
        Some("SW")
    } else if letter == 'm' {
        Some("MI")
    } else {
        None
    }
}

/// The suffix of a two-letter country code, as text.
fn country_of(first: char, second: char) -> (r: Option<&'static str>)
    ensures
        match r {
            Some(suffix) => country_suffix(seq![first, second]) == Some(suffix@),
            None => country_suffix(seq![first, second]).is_none(),
        },
{
    let ghost code = seq![first, second];
    assert(code[0] == first && code[1] == second);
    assert(seq!['P', 'T'][0] == 'P' && seq!['P', 'T'][1] == 'T');
    assert(seq!['A', 'T'][0] == 'A' && seq!['A', 'T'][1] == 'T');
    assert(seq!['B', 'E'][0] == 'B' && seq!['B', 'E'][1] == 'E');
    assert(seq!['C', 'A'][0] == 'C' && seq!['C', 'A'][1] == 'A');
    if first == 'P' && second == 'T' {
        assert(code =~= seq!['P', 'T']);
        Some("LS")
    } else if first == 'A' && second == 'T' {
        assert(code =~= seq!['A', 'T']);
        Some("VI")
    } else if first == 'B' && second == 'E' {
        assert(code =~= seq!['B', 'E']);
        Some("BR")
    } else if first == 'C' && second == 'A' {
        assert(code =~= seq!['C', 'A']);
        Some("TO")
    } else {
        None
    }
}

/// A symbol followed by a dot and a suffix.
fn dotted(symbol: &str, suffix: &str) -> (r: String)
    ensures
        r@ == symbol@ + "."@ + suffix@,
{
    let mut out = String::from_str(symbol);
    out.append(".");
    out.append(suffix);
    out
}

/// Converts a broker ticker into a market-data ticker, where there is a
/// conversion.
pub fn try_convert_to_yahoo_ticker(ticker: &String) -> (r: Option<String>)
    ensures
        match r {
            Some(converted) => yahoo_ticker(ticker@) == Some(converted@),
            None => yahoo_ticker(ticker@).is_none(),
        },
{
    let text = ticker.as_str();
    let chars = characters(text);
    let end = match find_marker(&chars) {
        None => {
            return Some(String::new());
        },
        Some(at) => at,
    };
    let ghost stem = ticker@.subrange(0, end as int);
    match find_underscore(&chars, 0, end) {
        None => {
            if end == 0 {
                return None;
            }
            assert(stem.last() == chars[end - 1]);
            assert(stem.drop_last() == ticker@.subrange(0, end - 1));
            match exchange_of(chars[end - 1]) {
                None => None,
                Some(suffix) => Some(dotted(text.substring_char(0, end - 1), suffix)),
            }
        },
        Some(cut) => {
            match find_underscore(&chars, cut + 1, end) {
                Some(_) => Some(String::new()),
                None => {
                    let ghost symbol = stem.subrange(0, cut as int);
                    let ghost country = stem.subrange(cut + 1, stem.len() as int);
                    assert(symbol == ticker@.subrange(0, cut as int));
                    assert(seq!['U', 'S'].len() == 2);
                    assert(seq!['P', 'T'].len() == 2 && seq!['A', 'T'].len() == 2 && seq![
                        'B',
                        'E',
                    ].len() == 2 && seq!['C', 'A'].len() == 2);
                    if end - cut != 3 {
                        assert(country.len() != 2);
                        return None;
                    }
                    let first: char = chars[cut + 1];
                    let second: char = chars[cut + 2];
                    assert(country =~= seq![first, second]);
                    assert(seq!['U', 'S'][0] == 'U' && seq!['U', 'S'][1] == 'S');
                    assert(country[0] == first && country[1] == second);
                    if first == 'U' && second == 'S' {
                        assert(country =~= seq!['U', 'S']);
                        return Some(String::from_str(text.substring_char(0, cut)));
                    }
                    match country_of(first, second) {
                        None => None,
                        Some(suffix) => Some(dotted(text.substring_char(0, cut), suffix)),
                    }
                },
            }
        },
    }
}

/// Converts a broker ticker into a market-data ticker.
pub fn convert_to_yahoo_ticker(ticker: String) -> (r: String)
    requires
        yahoo_ticker(ticker@).is_some(),
    ensures
        Some(r@) == yahoo_ticker(ticker@),
{
    match try_convert_to_yahoo_ticker(&ticker) {
        Some(converted) => converted,
        None => String::new(),
    }
}

} // verus!
