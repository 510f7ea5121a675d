//! Laws of the scanner: every lexeme is a part of the source, and the line
//! counter counts the line feeds.

use crate::scanner::{
    countable, end_of_input, error_of, find, is_alpha, is_alphanumeric, lemma_digits_end, lemma_find,
    lemma_lex_advances, lemma_newlines_split, lemma_numeral_scans, lemma_word_end, lex, newlines,
    number_token, scan_from, scan_result, token_of, word_end, ErrorView,
};
use crate::token::{digits_end, is_digit, is_numeral, TokenView};
use vstd::string::StringSliceAdditionalSpecFns;
use vstd::utf8::{decode_utf8, valid_utf8};
use vstd::prelude::*;

verus! {

/// The lexeme of a token is the part of the source that the token was
/// read from, character by character.
pub proof fn lemma_lexeme_is_window(src: Seq<char>, pos: int, line: int)
    requires
        0 <= pos < src.len(),
    ensures
        match lex(src, pos, line).token {
            Some(token) => token.lexeme == src.subrange(pos, lex(src, pos, line).next),
            None => true,
        },
{
}

/// Whether a text is a part of the source.
pub open spec fn is_part(text: Seq<char>, src: Seq<char>) -> bool {
    exists|from: int, to: int|
        0 <= from <= to <= src.len() && text == #[trigger] src.subrange(from, to)
}

/// The lexeme of every token of a source is a part of the source.
pub proof fn lemma_lexemes_are_parts(src: Seq<char>, pos: int, line: int)
    requires
        0 <= pos,
    ensures
        forall|i: int|
            0 <= i < scan_from(src, pos, line).tokens.len() ==> is_part(
                (#[trigger] scan_from(src, pos, line).tokens[i]).lexeme,
                src,
            ),
    decreases src.len() - pos,
{
    if pos < src.len() {
        let lexed = lex(src, pos, line);
        lemma_lex_advances(src, pos, line);
        lemma_lexemes_are_parts(src, lexed.next, lexed.line);
        let rest = scan_from(src, lexed.next, lexed.line);
        let all = scan_from(src, pos, line);
        assert forall|i: int| 0 <= i < all.tokens.len() implies is_part(
            (#[trigger] all.tokens[i]).lexeme,
            src,
        ) by {
            match lexed.token {
                Some(token) => {
                    if i == 0 {
                        assert(token.lexeme == src.subrange(pos, lexed.next));
                    } else {
                        assert(all.tokens[i] == rest.tokens[i - 1]);
                    }
                },
                None => {
                    assert(all.tokens[i] == rest.tokens[i]);
                },
            }
        }
    }
}

/// A part of a text that holds no line feed has none.
pub proof fn lemma_no_newlines(src: Seq<char>, from: int, to: int)
    requires
        0 <= from <= to <= src.len(),
        forall|i: int| from <= i < to ==> #[trigger] src[i] != '\n',
    ensures
        newlines(src.subrange(from, to)) == 0,
    decreases to - from,
{
    if from < to {
        lemma_no_newlines(src, from, to - 1);
        assert(src.subrange(from, to).drop_last() =~= src.subrange(from, to - 1));
    }
}

/// What is searched through before a character is found does not hold it.
pub proof fn lemma_find_before(src: Seq<char>, pos: int, stop: char)
    requires
        0 <= pos <= src.len(),
    ensures
        forall|i: int| pos <= i < find(src, pos, stop) ==> #[trigger] src[i] != stop,
        find(src, pos, stop) < src.len() ==> src[find(src, pos, stop)] == stop,
    decreases src.len() - pos,
{
    if pos < src.len() && src[pos] != stop {
        lemma_find_before(src, pos + 1, stop);
    }
}

/// A run of identifier characters holds identifier characters only.
pub proof fn lemma_word(src: Seq<char>, pos: int)
    requires
        0 <= pos <= src.len(),
    ensures
        forall|i: int| pos <= i < word_end(src, pos) ==> is_alphanumeric(#[trigger] src[i]),
    decreases src.len() - pos,
{
    if pos < src.len() && is_alphanumeric(src[pos]) {
        lemma_word(src, pos + 1);
    }
}

/// The line counter counts the line feeds: behind a lexeme, it has grown
/// by the number of line feeds in the lexeme.
pub proof fn lemma_lex_line(src: Seq<char>, pos: int, line: int)
    requires
        0 <= pos < src.len(),
    ensures
        lex(src, pos, line).line == line + newlines(src.subrange(pos, lex(src, pos, line).next)),
{
    let c = src[pos];
    let next = lex(src, pos, line).next;
    lemma_lex_advances(src, pos, line);
    if c == '"' {
        let close = find(src, pos + 1, '"');
        lemma_find(src, pos + 1, '"');
        lemma_find_before(src, pos + 1, '"');
        lemma_no_newlines(src, pos, pos + 1);
        lemma_newlines_split(src, pos, pos + 1, next);
        if close < src.len() {
            lemma_no_newlines(src, close, close + 1);
            lemma_newlines_split(src, pos + 1, close, next);
        }
    } else if c == '\n' {
        assert(src.subrange(pos, pos + 1).drop_last() =~= Seq::<char>::empty());
        assert(newlines(src.subrange(pos, pos + 1).drop_last()) == 0);
    } else if c == '/' && next > pos + 1 {
        lemma_find_before(src, pos + 2, '\n');
        lemma_no_newlines(src, pos, next);
    } else if is_digit(c) {
        lemma_digits_end(src, pos);
        let whole = digits_end(src, pos);
        if whole + 1 < src.len() {
            lemma_digits_end(src, whole + 1);
        }
        lemma_no_newlines(src, pos, next);
    } else if is_alpha(c) {
        lemma_word_end(src, pos + 1);
        lemma_word(src, pos + 1);
        lemma_no_newlines(src, pos, next);
    } else {
        lemma_no_newlines(src, pos, next);
    }
}

/// The line on which a place of a source stands: the first line is line 1,
/// and every line feed before the place begins a new one.
pub open spec fn line_at(src: Seq<char>, pos: int) -> int {
    1 + newlines(src.subrange(0, pos))
}

/// A lexeme that begins on its line ends on its line: the line counter is
/// right behind the lexeme where it was right before it.
pub proof fn lemma_lex_line_at(src: Seq<char>, pos: int)
    requires
        0 <= pos < src.len(),
    ensures
        lex(src, pos, line_at(src, pos)).line == line_at(
            src,
            lex(src, pos, line_at(src, pos)).next,
        ),
{
    let line = line_at(src, pos);
    lemma_lex_advances(src, pos, line);
    lemma_lex_line(src, pos, line);
    lemma_newlines_split(src, 0, pos, lex(src, pos, line).next);
}

/// An error carries the line on which it arose: a character that begins
/// no lexeme the line on which it stands, and a string that is not closed
/// the line on which the source ends.
pub proof fn lemma_error_line(src: Seq<char>, pos: int)
    requires
        0 <= pos < src.len(),
    ensures
        match lex(src, pos, line_at(src, pos)).error {
            Some(ErrorView::UnexpectedChar(c, line)) => c == src[pos] && line == line_at(src, pos),
            Some(ErrorView::UnterminatedString(line)) => line == line_at(src, src.len() as int),
            Some(ErrorView::ParseError(_)) => false,
            None => true,
        },
{
    let line = line_at(src, pos);
    lemma_lex_line_at(src, pos);
    lemma_lex_advances(src, pos, line);
    if src[pos] == '"' {
        lemma_find(src, pos + 1, '"');
        let close = find(src, pos + 1, '"');
        if close >= src.len() {
            assert(lex(src, pos, line).next == src.len());
            assert(lex(src, pos, line).error == Some(
                ErrorView::UnterminatedString(lex(src, pos, line).line),
            ));
        }
    }
}

/// Behind the whole source, the line counter stands at the line on which
/// the source ends, if it stood right where the scan began.
pub proof fn lemma_scan_line(src: Seq<char>, pos: int)
    requires
        0 <= pos <= src.len(),
    ensures
        scan_from(src, pos, line_at(src, pos)).line == line_at(src, src.len() as int),
    decreases src.len() - pos,
{
    if pos < src.len() {
        let lexed = lex(src, pos, line_at(src, pos));
        lemma_lex_advances(src, pos, line_at(src, pos));
        lemma_lex_line_at(src, pos);
        lemma_scan_line(src, lexed.next);
    }
}

/// A numeral holds no line feed.
pub proof fn lemma_numeral_on_one_line(numeral: Seq<char>)
    requires
        is_numeral(numeral),
    ensures
        newlines(numeral) == 0,
        countable(numeral),
{
    let whole = digits_end(numeral, 0);
    lemma_digits_end(numeral, 0);
    if whole < numeral.len() {
        lemma_digits_end(numeral, whole + 1);
    }
    lemma_no_newlines(numeral, 0, numeral.len() as int);
    assert(numeral.subrange(0, numeral.len() as int) =~= numeral);
}

/// Every numeral, whatever its length, is a source that can be scanned,
/// and scanning it gives one number token that holds it unchanged, before
/// the closing token.
pub proof fn lemma_numeral_source(text: &str)
    requires
        is_numeral(text@),
    ensures
        valid_utf8(text.spec_bytes()),
        decode_utf8(text.spec_bytes()) == text@,
        countable(decode_utf8(text.spec_bytes())),
        scan_result(decode_utf8(text.spec_bytes())) == Ok::<Seq<TokenView>, Seq<ErrorView>>(
            seq![number_token(text@, 1), end_of_input()],
        ),
{
    vstd::utf8::encode_utf8_valid_utf8(text@);
    vstd::utf8::encode_utf8_decode_utf8(text@);
    lemma_numeral_on_one_line(text@);
    lemma_numeral_scans(text@);
}

/// Scanning goes on behind every lexeme, behind one with an error too:
/// the tokens and the errors of a source are those of its first lexeme
/// and then those of the rest, so that every error of the source is
/// among them, in the order of the source.
pub proof fn lemma_scan_goes_on(src: Seq<char>, pos: int, line: int)
    requires
        0 <= pos < src.len(),
    ensures
        scan_from(src, pos, line).errors == error_of(lex(src, pos, line)) + scan_from(
            src,
            lex(src, pos, line).next,
            lex(src, pos, line).line,
        ).errors,
        scan_from(src, pos, line).tokens == token_of(lex(src, pos, line)) + scan_from(
            src,
            lex(src, pos, line).next,
            lex(src, pos, line).line,
        ).tokens,
        lex(src, pos, line).error is Some ==> scan_from(src, pos, line).errors.len() > 0
            && scan_from(src, pos, line).errors[0] == lex(src, pos, line).error.unwrap(),
{
}

/// A source has an error exactly where one of its lexemes has one.
pub proof fn lemma_errors_are_of_lexemes(src: Seq<char>, pos: int, line: int)
    requires
        0 <= pos,
    ensures
        scan_from(src, pos, line).errors.len() > 0 <==> has_invalid_lexeme(src, pos, line),
    decreases src.len() - pos,
{
    if pos < src.len() {
        let lexed = lex(src, pos, line);
        lemma_lex_advances(src, pos, line);
        lemma_errors_are_of_lexemes(src, lexed.next, lexed.line);
    }
}

/// Whether one of the lexemes of the source, from `pos` on, has an error.
pub open spec fn has_invalid_lexeme(src: Seq<char>, pos: int, line: int) -> bool
    decreases src.len() - pos,
{
    if 0 <= pos < src.len() {
        let lexed = lex(src, pos, line);
        proof {
            lemma_lex_advances(src, pos, line);
        }
        lexed.error is Some || has_invalid_lexeme(src, lexed.next, lexed.line)
    } else {
        false
    }
}

} // verus!
