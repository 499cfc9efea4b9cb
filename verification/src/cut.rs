//! Selecting bytes, characters or fields of lines by a list of ranges.

pub mod list;
pub mod range;

use crate::cut::range::{CutList, Selector};
use crate::text::{
    chars_of, extend_chars, lemma_prefix_len, lemma_utf8_len_push, push_char, split, split_chars,
    string_of,
    utf8_len, views, width_of,
};
use vstd::prelude::*;
use vstd::string::StringExecFns;
use vstd::string::StringSliceAdditionalSpecFns;

verus! {

/// The lists of the command line: which bytes, characters or fields to
/// select.
#[derive(Debug)]
pub struct Selectors {
    pub bytes: Option<CutList>,
    pub characters: Option<CutList>,
    pub fields: Option<CutList>,
}

/// The command line.
#[derive(Debug)]
pub struct Cli {
    pub selectors: Selectors,
    /// The character that separates the fields of a line.
    pub delimiter: char,
    /// Select what the list does not.
    pub complement: bool,
    /// Leave out the lines that hold no delimiter.
    pub only_delimited: bool,
    /// What to write between the selected fields.
    pub output_delimiter: Option<String>,
    pub files: Vec<String>,
    /// Lines end with the null character.
    pub zero_terminated: bool,
    pub verbose: u8,
}

/// What is wrong with a command line, if anything.
pub open spec fn args_fault(cli: Cli) -> Option<Seq<char>> {
    if cli.selectors.bytes is Some || cli.selectors.characters is Some {
        if cli.delimiter != '\t' {
            Some("An input delimiter may only be specified only when operating on fields"@)
        } else if cli.only_delimited {
            Some("Suppressing non-delimited lines makes sense only when operating on fields"@)
        } else {
            None
        }
    } else {
        None
    }
}

/// Checks that the options of the command line go together: a delimiter
/// other than the tab, and leaving out lines without delimiters, make
/// sense for fields only.
pub fn verify_args(cli: &Cli) -> (r: Result<(), String>)
    ensures
        r is Ok <==> args_fault(*cli) is None,
        r is Err ==> args_fault(*cli) == Some(r->Err_0@),
{
    let by_position = cli.selectors.bytes.is_some() || cli.selectors.characters.is_some();
    if !by_position {
        Ok(())
    } else if cli.delimiter != '\t' {
        Err(
            String::from_str(
                "An input delimiter may only be specified only when operating on fields",
            ),
        )
    } else if cli.only_delimited {
        Err(
            String::from_str(
                "Suppressing non-delimited lines makes sense only when operating on fields",
            ),
        )
    } else {
        Ok(())
    }
}

/// What stands between the fields of the output.
pub open spec fn output_delimiter_spec(cli: Cli) -> Seq<char> {
    match cli.output_delimiter {
        None => seq![cli.delimiter],
        Some(s) => if s@.len() == 0 {
            seq!['\0']
        } else {
            s@
        },
    }
}

/// What to write between the selected fields: the output delimiter that
/// was asked for, the null character where the empty text was asked for,
/// and the input delimiter where none was.
pub fn determine_output_delimiter(args: &Cli) -> (s: String)
    ensures
        s@ == output_delimiter_spec(*args),
{
    match &args.output_delimiter {
        None => {
            let mut s = String::new();
            push_char(&mut s, args.delimiter);
            assert(s@ =~= seq![args.delimiter]);
            s
        },
        Some(text) => {
            if text.as_str().is_empty() {
                let mut s = String::new();
                push_char(&mut s, '\0');
                assert(s@ =~= seq!['\0']);
                s
            } else {
                text.clone()
            }
        },
    }
}

/// Whether the position `field` goes to the output.
pub open spec fn chosen(list: CutList, complement: bool, field: usize) -> bool {
    list.selects(field) != complement
}

/// The selected fields from the `i`-th on, `sep` between them, and before
/// the first of them where `started` says that one was written already.
pub open spec fn joined_from(
    fields: Seq<Seq<char>>,
    i: int,
    list: CutList,
    complement: bool,
    sep: Seq<char>,
    started: bool,
) -> Seq<char>
    decreases fields.len() - i,
{
    if i < 0 || i >= fields.len() {
        Seq::empty()
    } else if chosen(list, complement, (i + 1) as usize) {
        (if started {
            sep
        } else {
            Seq::empty()
        }) + fields[i] + joined_from(fields, i + 1, list, complement, sep, true)
    } else {
        joined_from(fields, i + 1, list, complement, sep, started)
    }
}

/// Whether `s` ends with `c`.
pub open spec fn ends_with(s: Seq<char>, c: char) -> bool {
    s.len() > 0 && s.last() == c
}

/// What is written for one line when fields are selected.
///
/// A line whose first field ends with the line delimiter holds no field
/// delimiter: it is written as it is, or left out where such lines are
/// suppressed. Of any other line the selected fields are written, with the
/// output delimiter between them. In each case the line delimiter follows.
pub open spec fn field_line_spec(
    line: Seq<char>,
    delimiter: char,
    output_delimiter: Seq<char>,
    suppress_non_delimited: bool,
    line_delim: char,
    list: CutList,
    complement: bool,
) -> Seq<char> {
    let fields = split(line, delimiter);
    if ends_with(fields[0], line_delim) {
        (if suppress_non_delimited {
            Seq::empty()
        } else {
            fields[0]
        }).push(line_delim)
    } else {
        joined_from(fields, 0, list, complement, output_delimiter, false).push(line_delim)
    }
}

/// Selects fields of one line, which is handed over with its line
/// delimiter where it has one.
pub fn handle_field_fields(
    line: &str,
    delimiter: char,
    output_delimiter: &str,
    suppress_non_delimited: bool,
    line_delim: char,
    selector: &CutList,
    complement: bool,
) -> (out: String)
    ensures
        out@ == field_line_spec(
            line@,
            delimiter,
            output_delimiter@,
            suppress_non_delimited,
            line_delim,
            *selector,
            complement,
        ),
{
    let v = chars_of(line);
    let sep = chars_of(output_delimiter);
    let fields = split_chars(&v, delimiter);
    proof {
        crate::text::lemma_find_char(v@, delimiter, 0);
        assert(split(v@, delimiter).len() >= 1);
        assert(views(fields@)[0] == fields@[0]@);
    }
    let mut out: Vec<char> = Vec::new();
    let first = &fields[0];
    if first.len() > 0 && first[first.len() - 1] == line_delim {
        if !suppress_non_delimited {
            extend_chars(&mut out, first);
        }
        out.push(line_delim);
        proof {
            assert(Seq::<char>::empty() + first@ =~= first@);
        }
        return string_of(&out);
    }
    let mut started: bool = false;
    let mut i: usize = 0;
    let ghost all = views(fields@);
    proof {
        assert(out@ + joined_from(all, 0, *selector, complement, sep@, false) =~= joined_from(
            all,
            0,
            *selector,
            complement,
            sep@,
            false,
        ));
    }
    while i < fields.len()
        invariant
            i <= fields.len(),
            all == views(fields@),
            joined_from(all, 0, *selector, complement, sep@, false) == out@ + joined_from(
                all,
                i as int,
                *selector,
                complement,
                sep@,
                started,
            ),
        decreases fields.len() - i,
    {
        let ghost before = out@;
        let ghost was_started = started;
        let ghost rest = joined_from(all, i + 1, *selector, complement, sep@, true);
        if selector.is_selected(i + 1) != complement {
            if started {
                extend_chars(&mut out, &sep);
            }
            started = true;
            extend_chars(&mut out, &fields[i]);
            proof {
                assert(all[i as int] == fields@[i as int]@);
                assert(before + ((if was_started { sep@ } else { Seq::<char>::empty() })
                    + all[i as int] + rest) =~= out@ + rest) by {
                    assert(before + sep@ + all[i as int] + rest =~= before + (sep@ + all[i as int]
                        + rest));
                    assert(before + Seq::<char>::empty() + all[i as int] + rest =~= before + (
                    Seq::<char>::empty() + all[i as int] + rest));
                }
            }
        }
        i += 1;
    }
    proof {
        assert(out@ + Seq::<char>::empty() =~= out@);
    }
    out.push(line_delim);
    string_of(&out)
}

/// The byte that is taken for the line delimiter: its code point, cut to
/// eight bits.
pub open spec fn delimiter_byte(line_delim: char) -> u8 {
    (line_delim as u32 % 256) as u8
}

/// What is written for the bytes from the `i`-th on: the line delimiter for
/// a byte that is the line delimiter, and each other byte whose position
/// is selected, as the character with that code point.
pub open spec fn bytes_from(
    bytes: Seq<u8>,
    i: int,
    line_delim: char,
    list: CutList,
    complement: bool,
) -> Seq<char>
    decreases bytes.len() - i,
{
    if i < 0 || i >= bytes.len() {
        Seq::empty()
    } else if bytes[i] == delimiter_byte(line_delim) {
        seq![line_delim] + bytes_from(bytes, i + 1, line_delim, list, complement)
    } else if chosen(list, complement, (i + 1) as usize) {
        seq![bytes[i] as char] + bytes_from(bytes, i + 1, line_delim, list, complement)
    } else {
        bytes_from(bytes, i + 1, line_delim, list, complement)
    }
}

/// Selects bytes of one line, and puts the line delimiter behind them.
pub fn handle_byte_fields(line: &str, line_delim: char, selector: &CutList, complement: bool) -> (out:
    String)
    ensures
        out@ == bytes_from(line.spec_bytes(), 0, line_delim, *selector, complement).push(
            line_delim,
        ),
{
    let bytes = line.as_bytes();
    let stop: u8 = (line_delim as u32 % 256) as u8;
    let mut out = String::new();
    let mut i: usize = 0;
    proof {
        assert(out@ + bytes_from(bytes@, 0, line_delim, *selector, complement) =~= bytes_from(
            bytes@,
            0,
            line_delim,
            *selector,
            complement,
        ));
    }
    while i < bytes.len()
        invariant
            i <= bytes.len(),
            stop == delimiter_byte(line_delim),
            bytes_from(bytes@, 0, line_delim, *selector, complement) == out@ + bytes_from(
                bytes@,
                i as int,
                line_delim,
                *selector,
                complement,
            ),
        decreases bytes.len() - i,
    {
        let ghost before = out@;
        let ghost rest = bytes_from(bytes@, i + 1, line_delim, *selector, complement);
        let part: u8 = bytes[i];
        if part == stop {
            push_char(&mut out, line_delim);
            proof {
                assert(before + (seq![line_delim] + rest) =~= out@ + rest);
            }
        } else if selector.is_selected(i + 1) != complement {
            push_char(&mut out, part as char);
            proof {
                assert(before + (seq![part as char] + rest) =~= out@ + rest);
            }
        }
        i += 1;
    }
    proof {
        assert(out@ + Seq::<char>::empty() =~= out@);
    }
    push_char(&mut out, line_delim);
    out
}

/// What is written for the characters from the `i`-th on: the line
/// delimiter where it stands, and each other character that is selected.
/// The position of a character is the number of bytes that the characters
/// before it take in UTF-8, and one.
pub open spec fn chars_from(
    line: Seq<char>,
    i: int,
    line_delim: char,
    list: CutList,
    complement: bool,
) -> Seq<char>
    decreases line.len() - i,
{
    if i < 0 || i >= line.len() {
        Seq::empty()
    } else if line[i] == line_delim {
        seq![line_delim] + chars_from(line, i + 1, line_delim, list, complement)
    } else if chosen(list, complement, (utf8_len(line.take(i)) + 1) as usize) {
        seq![line[i]] + chars_from(line, i + 1, line_delim, list, complement)
    } else {
        chars_from(line, i + 1, line_delim, list, complement)
    }
}

/// Selects characters of one line, and puts the line delimiter behind them.
pub fn handle_char_fields(line: &str, line_delim: char, selector: &CutList, complement: bool) -> (out:
    String)
    ensures
        out@ == chars_from(line@, 0, line_delim, *selector, complement).push(line_delim),
{
    let v = chars_of(line);
    let total: usize = line.as_bytes().len();
    let mut out = String::new();
    let mut offset: usize = 0;
    let mut i: usize = 0;
    proof {
        assert(v@.take(0) =~= Seq::<char>::empty());
        assert(out@ + chars_from(v@, 0, line_delim, *selector, complement) =~= chars_from(
            v@,
            0,
            line_delim,
            *selector,
            complement,
        ));
    }
    while i < v.len()
        invariant
            i <= v.len(),
            v@ == line@,
            total == utf8_len(v@),
            offset == utf8_len(v@.take(i as int)),
            offset <= total,
            i < v.len() ==> offset < total,
            chars_from(v@, 0, line_delim, *selector, complement) == out@ + chars_from(
                v@,
                i as int,
                line_delim,
                *selector,
                complement,
            ),
        decreases v.len() - i,
    {
        let ghost before = out@;
        let ghost rest = chars_from(v@, i + 1, line_delim, *selector, complement);
        let part: char = v[i];
        if part == line_delim {
            push_char(&mut out, line_delim);
            proof {
                assert(before + (seq![line_delim] + rest) =~= out@ + rest);
            }
        } else if selector.is_selected(offset + 1) != complement {
            push_char(&mut out, part);
            proof {
                assert(before + (seq![part] + rest) =~= out@ + rest);
            }
        }
        proof {
            lemma_utf8_len_push(v@.take(i as int), part);
            assert(v@.take(i as int).push(part) =~= v@.take(i + 1));
            lemma_prefix_len(v@, i + 1);
            if i + 1 < v.len() {
                lemma_utf8_len_push(v@.take(i + 1), v@[i + 1]);
                assert(v@.take(i + 1).push(v@[i + 1]) =~= v@.take(i + 2));
                lemma_prefix_len(v@, i + 2);
            }
        }
        offset = offset + width_of(part);
        i += 1;
    }
    proof {
        assert(out@ + Seq::<char>::empty() =~= out@);
    }
    push_char(&mut out, line_delim);
    out
}

} // verus!
