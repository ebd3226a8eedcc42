//! Reading of a triangle mesh from its text.
//!
//! The text is read line by line. A line that starts with `v ` adds a
//! position of three numbers, one that starts with `vt ` a texture coordinate
//! of two numbers, one that starts with `vn ` a normal of three numbers, and
//! one that starts with `f ` a face of three corners. Every other line is
//! passed over. The numbers of a position, a texture coordinate or a normal are
//! kept as they are written; the indices of a face are counted from 1 in the
//! text and from 0 in the mesh.

use crate::error::LoadError;
use crate::pixmap::Pixmap;
use crate::tgaimage::{failure, shows, ImageLoader, TgaImage};
use crate::vector3d::{Vec3i, Vector3D};
use std::ops::IndexMut;
use vstd::prelude::*;

verus! {

/// Whether `b` separates words: a blank, a tab, a line feed, a vertical tab, a
/// form feed or a carriage return.
pub open spec fn is_space(b: u8) -> bool {
    b == 32 || (9 <= b && b <= 13)
}

/// Whether `b` is one of the digits `0` to `9`.
pub open spec fn is_digit(b: u8) -> bool {
    48 <= b && b <= 57
}

/// The kinds of bytes that a run is made of.
#[derive(Copy, Clone, Debug, PartialEq, Eq)]
pub enum Class {
    /// Any byte but a line feed.
    Line,
    /// Any byte that separates no word.
    Word,
    /// Any byte but a `/`.
    Part,
    /// A digit.
    Digit,
}

/// Whether `b` is of the class `class`.
pub open spec fn belongs(class: Class, b: u8) -> bool {
    match class {
        Class::Line => b != 10,
        Class::Word => !is_space(b),
        Class::Part => b != 47,
        Class::Digit => is_digit(b),
    }
}

/// The length of the longest run of bytes of the class `class` at the start of `s`.
pub open spec fn run_len(s: Seq<u8>, class: Class) -> int
    decreases s.len(),
{
    if s.len() == 0 || !belongs(class, s[0]) {
        0
    } else {
        1 + run_len(s.skip(1), class)
    }
}

/// A run lies within its bytes, holds only bytes of its class, and ends at the
/// end of the bytes or before a byte that is not of its class.
pub proof fn lemma_run_len(s: Seq<u8>, class: Class)
    ensures
        0 <= run_len(s, class) <= s.len(),
        forall|i: int| 0 <= i < run_len(s, class) ==> belongs(class, #[trigger] s[i]),
        run_len(s, class) < s.len() ==> !belongs(class, s[run_len(s, class)]),
    decreases s.len(),
{
    if s.len() > 0 && belongs(class, s[0]) {
        lemma_run_len(s.skip(1), class);
        assert forall|i: int| 0 <= i < run_len(s, class) implies belongs(class, #[trigger] s[i]) by {
            if i > 0 {
                assert(s[i] == s.skip(1)[i - 1]);
            }
        }
        if run_len(s, class) < s.len() {
            assert(s.skip(1)[run_len(s.skip(1), class)] == s[run_len(s, class)]);
        }
    }
}

/// Only one length is that of the run at the start of `s`.
pub proof fn lemma_run_len_is(s: Seq<u8>, class: Class, n: int)
    requires
        0 <= n <= s.len(),
        forall|i: int| 0 <= i < n ==> belongs(class, #[trigger] s[i]),
        n < s.len() ==> !belongs(class, s[n]),
    ensures
        run_len(s, class) == n,
{
    lemma_run_len(s, class);
    let m = run_len(s, class);
    if m < n {
        assert(belongs(class, s[m]));
    } else if n < m {
        assert(belongs(class, s[n]));
    }
}

/// The length of the first line of `text`, its line feed not counted.
pub open spec fn line_len(text: Seq<u8>) -> int {
    run_len(text, Class::Line)
}

/// The words of `line`: its longest runs of bytes that are not separators.
pub open spec fn words(line: Seq<u8>) -> Seq<Seq<u8>>
    decreases line.len(),
    via words_decreases
{
    if line.len() == 0 {
        Seq::empty()
    } else if is_space(line[0]) {
        words(line.skip(1))
    } else {
        seq![line.take(run_len(line, Class::Word))] + words(line.skip(run_len(line, Class::Word)))
    }
}

#[via_fn]
proof fn words_decreases(line: Seq<u8>) {
    lemma_run_len(line, Class::Word);
}

/// The number of digits at the start of `s`.
pub open spec fn digits_len(s: Seq<u8>) -> int {
    run_len(s, Class::Digit)
}

/// The length of the sign at the start of `s`: 1 where `s` starts with `+` or
/// `-`, else 0.
pub open spec fn sign_len(s: Seq<u8>) -> int {
    if s.len() > 0 && (s[0] == 43 || s[0] == 45) {
        1
    } else {
        0
    }
}

/// `b` as a small letter where it is a capital letter, else `b`.
pub open spec fn lowered(b: u8) -> u8 {
    if 65 <= b && b <= 90 {
        (b + 32) as u8
    } else {
        b
    }
}

/// Whether `s` spells `word`, capital letters taken for small ones.
pub open spec fn spells(s: Seq<u8>, word: Seq<u8>) -> bool {
    &&& s.len() == word.len()
    &&& forall|i: int| 0 <= i < s.len() ==> lowered(#[trigger] s[i]) == word[i]
}

/// The bytes of `inf`.
pub open spec fn word_inf() -> Seq<u8> {
    seq![105u8, 110u8, 102u8]
}

/// The bytes of `infinity`.
pub open spec fn word_infinity() -> Seq<u8> {
    seq![105u8, 110u8, 102u8, 105u8, 110u8, 105u8, 116u8, 121u8]
}

/// The bytes of `nan`.
pub open spec fn word_nan() -> Seq<u8> {
    seq![110u8, 97u8, 110u8]
}

/// The number of digits of `s` from place `from` on.
pub open spec fn digits_from(s: Seq<u8>, from: int) -> int {
    digits_len(s.skip(from))
}

/// Whether `s` is digits with at most one point among them and at least one
/// digit, followed or not by an exponent: `e` or `E`, a sign or none, and at
/// least one digit.
pub open spec fn is_decimal(s: Seq<u8>) -> bool {
    let whole = digits_from(s, 0);
    let has_point = whole < s.len() && s[whole] == 46;
    let fraction = if has_point {
        digits_from(s, whole + 1)
    } else {
        0
    };
    let mantissa = whole + if has_point {
        1 + fraction
    } else {
        0
    };
    &&& whole + fraction >= 1
    &&& mantissa == s.len() || {
        let sign = if mantissa + 1 < s.len() && (s[mantissa + 1] == 43 || s[mantissa + 1] == 45) {
            1int
        } else {
            0int
        };
        let exponent = digits_from(s, mantissa + 1 + sign);
        &&& s[mantissa] == 101 || s[mantissa] == 69
        &&& exponent >= 1
        &&& mantissa + 1 + sign + exponent == s.len()
    }
}

/// Whether `s` is written as a number: a sign or none, and then a decimal
/// number or one of the words `inf`, `infinity` and `nan` in any mix of
/// capital and small letters.
pub open spec fn is_number(s: Seq<u8>) -> bool {
    let body = s.skip(sign_len(s));
    ||| spells(body, word_inf())
    ||| spells(body, word_infinity())
    ||| spells(body, word_nan())
    ||| is_decimal(body)
}

/// The number that the digits `s` write in base ten.
pub open spec fn decimal_value(s: Seq<u8>) -> int
    decreases s.len(),
{
    if s.len() == 0 {
        0
    } else {
        10 * decimal_value(s.drop_last()) + (s.last() - 48)
    }
}

/// The integer that `s` writes: a sign or none, and then digits, at least one;
/// nothing where `s` is not written so or the integer does not fit 32 bits.
pub open spec fn integer(s: Seq<u8>) -> Option<int> {
    let digits = s.skip(sign_len(s));
    let value = if s.len() > 0 && s[0] == 45 {
        -decimal_value(digits)
    } else {
        decimal_value(digits)
    };
    if digits.len() >= 1 && digits_len(digits) == digits.len() && i32::MIN <= value <= i32::MAX {
        Some(value)
    } else {
        None
    }
}

/// The length of the part of `word` before its first `/`.
pub open spec fn part_len(word: Seq<u8>) -> int {
    run_len(word, Class::Part)
}

/// The parts of `word` between its `/`s, empty parts included.
pub open spec fn parts(word: Seq<u8>) -> Seq<Seq<u8>>
    decreases word.len(),
    via parts_decreases
{
    if part_len(word) >= word.len() {
        seq![word]
    } else {
        seq![word.take(part_len(word))] + parts(word.skip(part_len(word) + 1))
    }
}

#[via_fn]
proof fn parts_decreases(word: Seq<u8>) {
    lemma_run_len(word, Class::Part);
}

/// The index that `part` writes, counted from 0: one less than its integer.
pub open spec fn index_of(part: Seq<u8>) -> Option<i32> {
    match integer(part) {
        Some(value) => if value - 1 >= i32::MIN {
            Some((value - 1) as i32)
        } else {
            None
        },
        None => None,
    }
}

/// The corner that `word` writes: up to three indices with `/` between them,
/// of a position, of a texture coordinate and of a normal. An index that is
/// not written is -1.
pub open spec fn corner(word: Seq<u8>) -> Option<Vec3i> {
    let p = parts(word);
    if p.len() > 3 {
        None
    } else if exists|i: int| 0 <= i < p.len() && index_of(#[trigger] p[i]) is None {
        None
    } else {
        Some(
            Vector3D {
                x: index_of(p[0]).unwrap(),
                y: if p.len() > 1 {
                    index_of(p[1]).unwrap()
                } else {
                    (-1) as i32
                },
                z: if p.len() > 2 {
                    index_of(p[2]).unwrap()
                } else {
                    (-1) as i32
                },
            },
        )
    }
}

/// The numbers of a line: the `count` words that follow the first word `w[0]`,
/// kept as they are written. The first word that is missing or not a number
/// decides the failure.
pub open spec fn numbers(w: Seq<Seq<u8>>, count: int) -> Result<Seq<Seq<u8>>, LoadError>
    decreases count,
{
    if count <= 0 {
        Ok(Seq::empty())
    } else {
        match numbers(w, count - 1) {
            Err(e) => Err(e),
            Ok(first) => if w.len() <= count {
                Err(LoadError::MissingToken)
            } else if !is_number(w[count]) {
                Err(LoadError::MalformedNumber)
            } else {
                Ok(first.push(w[count]))
            },
        }
    }
}

/// The corners of a face: those that the `count` words after the first word
/// `w[0]` write. The first word that is missing or writes no corner decides the
/// failure.
pub open spec fn corners(w: Seq<Seq<u8>>, count: int) -> Result<Seq<Vec3i>, LoadError>
    decreases count,
{
    if count <= 0 {
        Ok(Seq::empty())
    } else {
        match corners(w, count - 1) {
            Err(e) => Err(e),
            Ok(first) => if w.len() <= count {
                Err(LoadError::MissingToken)
            } else if corner(w[count]) is None {
                Err(LoadError::MalformedNumber)
            } else {
                Ok(first.push(corner(w[count]).unwrap()))
            },
        }
    }
}

/// Whether `line` starts with the bytes `prefix`.
pub open spec fn starts_with(line: Seq<u8>, prefix: Seq<u8>) -> bool {
    line.len() >= prefix.len() && line.take(prefix.len() as int) == prefix
}

/// What a mesh holds, as its text gives it.
pub struct Mesh {
    /// The positions, each of three numbers as written.
    pub positions: Seq<Seq<Seq<u8>>>,
    /// The faces, each of three corners.
    pub faces: Seq<Seq<Vec3i>>,
    /// The normals, each of three numbers as written.
    pub normals: Seq<Seq<Seq<u8>>>,
    /// The texture coordinates, each of two numbers as written.
    pub uvs: Seq<Seq<Seq<u8>>>,
}

/// The mesh without anything in it.
pub open spec fn empty_mesh() -> Mesh {
    Mesh {
        positions: Seq::empty(),
        faces: Seq::empty(),
        normals: Seq::empty(),
        uvs: Seq::empty(),
    }
}

/// The mesh `mesh` with what the line `line` adds to it.
pub open spec fn with_line(mesh: Mesh, line: Seq<u8>) -> Result<Mesh, LoadError> {
    let w = words(line);
    if starts_with(line, seq![118u8, 32u8]) {
        match numbers(w, 3) {
            Ok(n) => Ok(Mesh { positions: mesh.positions.push(n), ..mesh }),
            Err(e) => Err(e),
        }
    } else if starts_with(line, seq![102u8, 32u8]) {
        match corners(w, 3) {
            Ok(c) => Ok(Mesh { faces: mesh.faces.push(c), ..mesh }),
            Err(e) => Err(e),
        }
    } else if starts_with(line, seq![118u8, 116u8, 32u8]) {
        match numbers(w, 2) {
            Ok(n) => Ok(Mesh { uvs: mesh.uvs.push(n), ..mesh }),
            Err(e) => Err(e),
        }
    } else if starts_with(line, seq![118u8, 110u8, 32u8]) {
        match numbers(w, 3) {
            Ok(n) => Ok(Mesh { normals: mesh.normals.push(n), ..mesh }),
            Err(e) => Err(e),
        }
    } else {
        Ok(mesh)
    }
}

/// The mesh `mesh` with what the lines of `text` add to it, line after line,
/// or the failure of the first line that fails.
pub open spec fn with_text(mesh: Mesh, text: Seq<u8>) -> Result<Mesh, LoadError>
    decreases text.len(),
    via with_text_decreases
{
    if text.len() == 0 {
        Ok(mesh)
    } else {
        let n = line_len(text);
        match with_line(mesh, text.take(n)) {
            Err(e) => Err(e),
            Ok(next) => if n >= text.len() {
                Ok(next)
            } else {
                with_text(next, text.skip(n + 1))
            },
        }
    }
}

#[via_fn]
proof fn with_text_decreases(mesh: Mesh, text: Seq<u8>) {
    lemma_run_len(text, Class::Line);
}

/// The mesh that `text` describes.
pub open spec fn mesh_of(text: Seq<u8>) -> Result<Mesh, LoadError> {
    with_text(empty_mesh(), text)
}

/// Whether `b` is of the class `class`.
fn is_of(class: Class, b: u8) -> (r: bool)
    ensures
        r == belongs(class, b),
{
    match class {
        Class::Line => b != 10,
        Class::Word => !(b == 32 || (9 <= b && b <= 13)),
        Class::Part => b != 47,
        Class::Digit => 48 <= b && b <= 57,
    }
}

/// The end of the run of bytes of the class `class` that starts at `from`.
fn run_end(s: &[u8], from: usize, class: Class) -> (end: usize)
    requires
        from <= s@.len(),
    ensures
        from <= end <= s@.len(),
        end - from == run_len(s@.skip(from as int), class),
{
    let mut end = from;
    while end < s.len() && is_of(class, s[end])
        invariant
            from <= end <= s@.len(),
            forall|i: int| from <= i < end ==> belongs(class, #[trigger] s@[i]),
        decreases s@.len() - end,
    {
        end += 1;
    }
    proof {
        let tail = s@.skip(from as int);
        assert forall|i: int| 0 <= i < end - from implies belongs(class, #[trigger] tail[i]) by {
            assert(tail[i] == s@[from + i]);
        }
        lemma_run_len_is(tail, class, end - from);
    }
    end
}

/// The places of the words of `line`: where each starts and where it ends.
fn split_words(line: &[u8]) -> (found: Vec<(usize, usize)>)
    ensures
        found@.len() == words(line@).len(),
        forall|i: int|
            0 <= i < found@.len() ==> (#[trigger] found@[i]).0 <= found@[i].1 <= line@.len()
                && line@.subrange(found@[i].0 as int, found@[i].1 as int) == words(line@)[i],
{
    let mut found: Vec<(usize, usize)> = Vec::new();
    let mut pos: usize = 0;
    let ghost mut seen: Seq<Seq<u8>> = Seq::empty();
    proof {
        assert(line@.skip(0) =~= line@);
        assert(seen + words(line@) =~= words(line@));
    }
    while pos < line.len()
        invariant
            pos <= line@.len(),
            words(line@) == seen + words(line@.skip(pos as int)),
            found@.len() == seen.len(),
            forall|i: int|
                0 <= i < found@.len() ==> (#[trigger] found@[i]).0 <= found@[i].1 <= line@.len()
                    && line@.subrange(found@[i].0 as int, found@[i].1 as int) == seen[i],
        decreases line@.len() - pos,
    {
        let ghost tail = line@.skip(pos as int);
        assert(tail[0] == line@[pos as int]);
        if !is_of(Class::Word, line[pos]) {
            proof {
                assert(tail.skip(1) =~= line@.skip(pos + 1));
            }
            pos += 1;
        } else {
            let end = run_end(line, pos, Class::Word);
            proof {
                assert(tail.take(end - pos) =~= line@.subrange(pos as int, end as int));
                assert(tail.skip(end - pos) =~= line@.skip(end as int));
                assert(seen + (seq![tail.take(end - pos)] + words(tail.skip(end - pos))) =~= seen.push(
                    tail.take(end - pos),
                ) + words(tail.skip(end - pos)));
                seen = seen.push(tail.take(end - pos));
            }
            found.push((pos, end));
            pos = end;
        }
    }
    proof {
        assert(seen + Seq::<Seq<u8>>::empty() =~= seen);
    }
    found
}

/// The length of the sign at the start of `s`.
fn sign_end(s: &[u8]) -> (n: usize)
    ensures
        n == sign_len(s@),
{
    if s.len() > 0 && (s[0] == 43 || s[0] == 45) {
        1
    } else {
        0
    }
}

/// Whether `s` spells `word`, capital letters taken for small ones.
fn spells_word(s: &[u8], word: &[u8]) -> (r: bool)
    ensures
        r == spells(s@, word@),
{
    if s.len() != word.len() {
        return false;
    }
    let mut i: usize = 0;
    while i < s.len()
        invariant
            i <= s@.len(),
            s@.len() == word@.len(),
            forall|j: int| 0 <= j < i ==> lowered(#[trigger] s@[j]) == word@[j],
        decreases s@.len() - i,
    {
        let b = s[i];
        let low = if 65 <= b && b <= 90 {
            b + 32
        } else {
            b
        };
        if low != word[i] {
            return false;
        }
        i += 1;
    }
    true
}

/// Whether `s` is written as a decimal number.
fn is_decimal_text(s: &[u8]) -> (r: bool)
    ensures
        r == is_decimal(s@),
{
    let len = s.len();
    let whole = run_end(s, 0, Class::Digit);
    let has_point = whole < len && s[whole] == 46;
    let mantissa = if has_point {
        run_end(s, whole + 1, Class::Digit)
    } else {
        whole
    };
    let digits = if has_point {
        mantissa - 1
    } else {
        mantissa
    };
    if digits < 1 {
        return false;
    }
    if mantissa == len {
        return true;
    }
    if !(s[mantissa] == 101 || s[mantissa] == 69) {
        return false;
    }
    let sign: usize = if mantissa + 1 < len && (s[mantissa + 1] == 43 || s[mantissa + 1] == 45) {
        1
    } else {
        0
    };
    let end = run_end(s, mantissa + 1 + sign, Class::Digit);
    end > mantissa + 1 + sign && end == len
}

/// Whether `s` is written as a number.
fn is_number_text(s: &[u8]) -> (r: bool)
    ensures
        r == is_number(s@),
{
    let start = sign_end(s);
    let body = vstd::slice::slice_subrange(s, start, s.len());
    assert(body@ =~= s@.skip(start as int));
    let inf: [u8; 3] = [105, 110, 102];
    let infinity: [u8; 8] = [105, 110, 102, 105, 110, 105, 116, 121];
    let nan: [u8; 3] = [110, 97, 110];
    assert(inf@ =~= word_inf());
    assert(infinity@ =~= word_infinity());
    assert(nan@ =~= word_nan());
    spells_word(body, inf.as_slice()) || spells_word(body, infinity.as_slice()) || spells_word(
        body,
        nan.as_slice(),
    ) || is_decimal_text(body)
}

/// A number as it is written in a mesh.
#[derive(Debug, PartialEq, Eq)]
pub struct Number {
    text: Vec<u8>,
}

impl View for Number {
    type V = Seq<u8>;

    /// The bytes that write the number.
    closed spec fn view(&self) -> Seq<u8> {
        self.text@
    }
}

impl Clone for Number {
    /// The same number once more.
    fn clone(&self) -> (r: Number)
        ensures
            r@ == self@,
    {
        proof {
            use_type_invariant(self);
        }
        let text = self.text.clone();
        assert(text@ =~= self.text@);
        Number { text }
    }
}

impl Number {
    #[verifier::type_invariant]
    spec fn inv(self) -> bool {
        is_number(self.text@)
    }

    /// The number that `token` writes, where it writes one.
    pub fn parse(token: &[u8]) -> (r: Option<Number>)
        ensures
            match r {
                Some(n) => n@ == token@ && is_number(token@),
                None => !is_number(token@),
            },
    {
        if is_number_text(token) {
            Some(Number { text: vstd::slice::slice_to_vec(token) })
        } else {
            None
        }
    }

    /// The bytes that write the number.
    pub fn text(&self) -> (t: &[u8])
        ensures
            t@ == self@,
            is_number(self@),
    {
        proof {
            use_type_invariant(self);
        }
        self.text.as_slice()
    }
}

/// Digits that write a number still write it, ten times over and one digit
/// more, when a digit follows them.
proof fn lemma_decimal_value_push(s: Seq<u8>, n: int)
    requires
        0 <= n < s.len(),
        forall|i: int| 0 <= i <= n ==> is_digit(#[trigger] s[i]),
    ensures
        decimal_value(s.take(n + 1)) == 10 * decimal_value(s.take(n)) + (s[n] - 48),
        0 <= decimal_value(s.take(n)) <= decimal_value(s.take(n + 1)),
    decreases n,
{
    assert(s.take(n + 1).drop_last() =~= s.take(n));
    assert(s.take(n + 1).last() == s[n]);
    if n > 0 {
        lemma_decimal_value_push(s, n - 1);
    } else {
        assert(s.take(0).len() == 0);
    }
}

/// The index that `part` writes, counted from 0.
fn parse_index(part: &[u8]) -> (r: Option<i32>)
    ensures
        r == index_of(part@),
{
    let len = part.len();
    let start = sign_end(part);
    let negative = len > 0 && part[0] == 45;
    let ghost digits = part@.skip(start as int);
    if start >= len {
        return None;
    }
    let mut acc: i64 = 0;
    let mut big = false;
    let mut i = start;
    assert(digits.take(0).len() == 0);
    while i < len
        invariant
            start <= i <= len,
            len == part@.len(),
            start == sign_len(part@),
            digits == part@.skip(start as int),
            forall|j: int| 0 <= j < i - start ==> is_digit(#[trigger] digits[j]),
            !big ==> acc == decimal_value(digits.take(i - start)) && 0 <= acc <= 2147483648,
            big ==> decimal_value(digits.take(i - start)) > 2147483648,
        decreases len - i,
    {
        let b = part[i];
        assert(digits[i - start] == b);
        if !(48 <= b && b <= 57) {
            proof {
                lemma_run_len(digits, Class::Digit);
                if run_len(digits, Class::Digit) == digits.len() {
                    assert(belongs(Class::Digit, digits[i - start]));
                }
            }
            return None;
        }
        proof {
            lemma_decimal_value_push(digits, i - start);
        }
        if !big {
            acc = acc * 10 + (b - 48) as i64;
            if acc > 2147483648 {
                big = true;
            }
        }
        i += 1;
    }
    proof {
        lemma_run_len_is(digits, Class::Digit, len - start);
        assert(digits.take(len - start) =~= digits);
    }
    if big {
        return None;
    }
    let value: i64 = if negative {
        -acc
    } else {
        acc
    };
    if value > 2147483647 || value - 1 < -2147483648 {
        None
    } else {
        Some((value - 1) as i32)
    }
}

/// A word has at least one part.
proof fn lemma_parts_len(word: Seq<u8>)
    ensures
        parts(word).len() >= 1,
{
}

/// The corner that `word` writes.
#[verifier::rlimit(40)]
fn parse_corner(word: &[u8]) -> (r: Option<Vec3i>)
    ensures
        r == corner(word@),
{
    let len = word.len();
    let mut face = Vec3i::new(-1, -1, -1);
    let mut j: usize = 0;
    let mut pos: usize = 0;
    let ghost mut seen: Seq<Seq<u8>> = Seq::empty();
    proof {
        assert(word@.skip(0) =~= word@);
        assert(seen + parts(word@) =~= parts(word@));
    }
    loop
        invariant_except_break
            parts(word@) == seen + parts(word@.skip(pos as int)),
            j == seen.len(),
            j <= 3,
            forall|i: int| 0 <= i < seen.len() ==> index_of(#[trigger] seen[i]) is Some,
            face.x == if j > 0 {
                index_of(seen[0]).unwrap()
            } else {
                (-1) as i32
            },
            face.y == if j > 1 {
                index_of(seen[1]).unwrap()
            } else {
                (-1) as i32
            },
            face.z == if j > 2 {
                index_of(seen[2]).unwrap()
            } else {
                (-1) as i32
            },
        invariant
            pos <= len,
            len == word@.len(),
        ensures
            parts(word@) == seen,
            j == seen.len(),
            1 <= j <= 3,
            forall|i: int| 0 <= i < seen.len() ==> index_of(#[trigger] seen[i]) is Some,
            face.x == index_of(seen[0]).unwrap(),
            face.y == if j > 1 {
                index_of(seen[1]).unwrap()
            } else {
                (-1) as i32
            },
            face.z == if j > 2 {
                index_of(seen[2]).unwrap()
            } else {
                (-1) as i32
            },
        decreases len - pos,
    {
        let ghost tail = word@.skip(pos as int);
        let end = run_end(word, pos, Class::Part);
        let part = vstd::slice::slice_subrange(word, pos, end);
        proof {
            lemma_parts_len(tail);
            lemma_parts_len(tail.skip(end - pos + 1));
            assert(part@ =~= tail.take(end - pos));
            if end >= len {
                assert(tail.take(end - pos) =~= tail);
            }
            assert(parts(tail)[0] == part@);
            assert(parts(word@)[j as int] == part@);
        }
        if j >= 3 {
            return None;
        }
        match parse_index(part) {
            None => {
                return None;
            },
            Some(v) => {
                *face.index_mut(j) = v;
            },
        }
        proof {
            if end < len {
                assert(tail.skip(end - pos + 1) =~= word@.skip(end + 1));
                assert(seen + (seq![part@] + parts(tail.skip(end - pos + 1))) =~= seen.push(part@)
                    + parts(tail.skip(end - pos + 1)));
            } else {
                assert(seen + seq![part@] =~= seen.push(part@));
            }
            seen = seen.push(part@);
        }
        j += 1;
        if end >= len {
            break ;
        }
        pos = end + 1;
    }
    Some(face)
}

/// Whether `line` starts with the bytes `prefix`.
fn has_prefix(line: &[u8], prefix: &[u8]) -> (r: bool)
    ensures
        r == starts_with(line@, prefix@),
{
    if line.len() < prefix.len() {
        return false;
    }
    let mut i: usize = 0;
    while i < prefix.len()
        invariant
            i <= prefix@.len() <= line@.len(),
            forall|j: int| 0 <= j < i ==> line@[j] == prefix@[j],
        decreases prefix@.len() - i,
    {
        if line[i] != prefix[i] {
            assert(line@.take(prefix@.len() as int)[i as int] != prefix@[i as int]);
            return false;
        }
        i += 1;
    }
    assert(line@.take(prefix@.len() as int) =~= prefix@);
    true
}

/// The number that word `i` of `line` writes, the words being at the places `found`.
fn number_at(line: &[u8], found: &Vec<(usize, usize)>, i: usize) -> (r: Result<Number, LoadError>)
    requires
        found@.len() == words(line@).len(),
        forall|k: int|
            0 <= k < found@.len() ==> (#[trigger] found@[k]).0 <= found@[k].1 <= line@.len()
                && line@.subrange(found@[k].0 as int, found@[k].1 as int) == words(line@)[k],
    ensures
        match r {
            Ok(n) => i < words(line@).len() && is_number(words(line@)[i as int]) && n@ == words(
                line@,
            )[i as int],
            Err(e) => if words(line@).len() <= i {
                e == LoadError::MissingToken
            } else {
                e == LoadError::MalformedNumber && !is_number(words(line@)[i as int])
            },
        },
{
    if found.len() <= i {
        return Err(LoadError::MissingToken);
    }
    let (start, end) = found[i];
    match Number::parse(vstd::slice::slice_subrange(line, start, end)) {
        Some(n) => Ok(n),
        None => Err(LoadError::MalformedNumber),
    }
}

/// The corner that word `i` of `line` writes, the words being at the places `found`.
fn corner_at(line: &[u8], found: &Vec<(usize, usize)>, i: usize) -> (r: Result<Vec3i, LoadError>)
    requires
        found@.len() == words(line@).len(),
        forall|k: int|
            0 <= k < found@.len() ==> (#[trigger] found@[k]).0 <= found@[k].1 <= line@.len()
                && line@.subrange(found@[k].0 as int, found@[k].1 as int) == words(line@)[k],
    ensures
        match r {
            Ok(c) => i < words(line@).len() && corner(words(line@)[i as int]) == Some(c),
            Err(e) => if words(line@).len() <= i {
                e == LoadError::MissingToken
            } else {
                e == LoadError::MalformedNumber && corner(words(line@)[i as int]) is None
            },
        },
{
    if found.len() <= i {
        return Err(LoadError::MissingToken);
    }
    let (start, end) = found[i];
    match parse_corner(vstd::slice::slice_subrange(line, start, end)) {
        Some(c) => Ok(c),
        None => Err(LoadError::MalformedNumber),
    }
}

/// The three numbers of a position or of a normal, as they are written.
pub open spec fn triple(v: Vector3D<Number>) -> Seq<Seq<u8>> {
    seq![v.x@, v.y@, v.z@]
}

/// The two numbers of a texture coordinate, as they are written.
pub open spec fn pair(v: [Number; 2]) -> Seq<Seq<u8>> {
    seq![v@[0]@, v@[1]@]
}

/// A triangle mesh and its texture.
#[derive(Debug)]
pub struct Model {
    /// The positions of the vertices.
    pub verticies: Vec<Vector3D<Number>>,
    /// The faces. Each corner holds, as `x`, `y` and `z`, the index of its
    /// position, of its texture coordinate and of its normal.
    pub faces: Vec<[Vec3i; 3]>,
    /// The normals.
    pub normals: Vec<Vector3D<Number>>,
    /// The texture.
    pub diffuse: Pixmap,
    /// The texture coordinates.
    pub uv: Vec<[Number; 2]>,
}

impl Model {
    /// What the mesh holds.
    pub open spec fn mesh(&self) -> Mesh {
        Mesh {
            positions: Seq::new(self.verticies@.len(), |i: int| triple(self.verticies@[i])),
            faces: Seq::new(self.faces@.len(), |i: int| self.faces@[i]@),
            normals: Seq::new(self.normals@.len(), |i: int| triple(self.normals@[i])),
            uvs: Seq::new(self.uv@.len(), |i: int| pair(self.uv@[i])),
        }
    }

    /// A mesh without anything in it, with a texture without cells.
    fn new() -> (m: Model)
        ensures
            m.mesh() == empty_mesh(),
            m.diffuse.width() == 0,
            m.diffuse.height() == 0,
    {
        let m = Model {
            verticies: Vec::new(),
            faces: Vec::new(),
            normals: Vec::new(),
            diffuse: Pixmap::default(),
            uv: Vec::new(),
        };
        assert(m.mesh().positions =~= empty_mesh().positions);
        assert(m.mesh().faces =~= empty_mesh().faces);
        assert(m.mesh().normals =~= empty_mesh().normals);
        assert(m.mesh().uvs =~= empty_mesh().uvs);
        m
    }

    /// The corner `nvert` of face `iface`, where the mesh has that face and
    /// `nvert` is 0, 1 or 2.
    pub fn corner(&self, iface: usize, nvert: usize) -> (r: Option<Vec3i>)
        ensures
            r == if iface < self.faces@.len() && nvert < 3 {
                Some(self.faces@[iface as int]@[nvert as int])
            } else {
                None
            },
    {
        if iface < self.faces.len() && nvert < 3 {
            Some(self.faces[iface][nvert])
        } else {
            None
        }
    }

    /// The texture coordinate of corner `nvert` of face `iface`, as it is
    /// written: nothing where the mesh has no such corner or the corner's
    /// index of a texture coordinate is not one of the mesh.
    pub fn uv(&self, iface: usize, nvert: usize) -> (r: Option<&[Number; 2]>)
        ensures
            match r {
                Some(found) => iface < self.faces@.len() && nvert < 3 && 0
                    <= self.faces@[iface as int]@[nvert as int].y < self.uv@.len() && *found
                    == self.uv@[self.faces@[iface as int]@[nvert as int].y as int],
                None => !(iface < self.faces@.len() && nvert < 3 && 0
                    <= self.faces@[iface as int]@[nvert as int].y < self.uv@.len()),
            },
    {
        match self.corner(iface, nvert) {
            Some(c) => {
                if c.y >= 0 && (c.y as usize) < self.uv.len() {
                    Some(&self.uv[c.y as usize])
                } else {
                    None
                }
            },
            None => None,
        }
    }

    /// The normal of corner `nvert` of face `iface`, as it is written: nothing
    /// where the mesh has no such corner or the corner's index of a normal is
    /// not one of the mesh.
    pub fn normal(&self, iface: usize, nvert: usize) -> (r: Option<&Vector3D<Number>>)
        ensures
            match r {
                Some(found) => iface < self.faces@.len() && nvert < 3 && 0
                    <= self.faces@[iface as int]@[nvert as int].z < self.normals@.len() && *found
                    == self.normals@[self.faces@[iface as int]@[nvert as int].z as int],
                None => !(iface < self.faces@.len() && nvert < 3 && 0
                    <= self.faces@[iface as int]@[nvert as int].z < self.normals@.len()),
            },
    {
        match self.corner(iface, nvert) {
            Some(c) => {
                if c.z >= 0 && (c.z as usize) < self.normals.len() {
                    Some(&self.normals[c.z as usize])
                } else {
                    None
                }
            },
            None => None,
        }
    }

    /// The position of corner `nvert` of face `iface`, as it is written:
    /// nothing where the mesh has no such corner or the corner's index of a
    /// position is not one of the mesh.
    pub fn vertex(&self, iface: usize, nvert: usize) -> (r: Option<&Vector3D<Number>>)
        ensures
            match r {
                Some(found) => iface < self.faces@.len() && nvert < 3 && 0
                    <= self.faces@[iface as int]@[nvert as int].x < self.verticies@.len() && *found
                    == self.verticies@[self.faces@[iface as int]@[nvert as int].x as int],
                None => !(iface < self.faces@.len() && nvert < 3 && 0
                    <= self.faces@[iface as int]@[nvert as int].x < self.verticies@.len()),
            },
    {
        match self.corner(iface, nvert) {
            Some(c) => {
                if c.x >= 0 && (c.x as usize) < self.verticies.len() {
                    Some(&self.verticies[c.x as usize])
                } else {
                    None
                }
            },
            None => None,
        }
    }

    /// Adds to the mesh what the line `line` describes.
    #[verifier::rlimit(40)]
    fn add_line(&mut self, line: &[u8]) -> (r: Result<(), LoadError>)
        ensures
            final(self).diffuse == old(self).diffuse,
            match r {
                Ok(()) => with_line(old(self).mesh(), line@) == Ok::<Mesh, LoadError>(
                    final(self).mesh(),
                ),
                Err(e) => with_line(old(self).mesh(), line@) == Err::<Mesh, LoadError>(e),
            },
    {
        let position: [u8; 2] = [118, 32];
        let face: [u8; 2] = [102, 32];
        let texture: [u8; 3] = [118, 116, 32];
        let normal: [u8; 3] = [118, 110, 32];
        assert(position@ =~= seq![118u8, 32u8]);
        assert(face@ =~= seq![102u8, 32u8]);
        assert(texture@ =~= seq![118u8, 116u8, 32u8]);
        assert(normal@ =~= seq![118u8, 110u8, 32u8]);
        reveal_with_fuel(numbers, 4);
        reveal_with_fuel(corners, 4);
        let ghost before = old(self).mesh();
        let ghost w = words(line@);

        let found = split_words(line);
        if has_prefix(line, position.as_slice()) {
            let x = match number_at(line, &found, 1) {
                Ok(n) => n,
                Err(e) => {
                    return Err(e);
                },
            };
            let y = match number_at(line, &found, 2) {
                Ok(n) => n,
                Err(e) => {
                    return Err(e);
                },
            };
            let z = match number_at(line, &found, 3) {
                Ok(n) => n,
                Err(e) => {
                    return Err(e);
                },
            };
            let v = Vector3D { x: x, y: y, z: z };
            self.verticies.push(v);
            proof {
                assert(triple(v) =~= Seq::<Seq<u8>>::empty().push(w[1]).push(w[2]).push(w[3]));
                assert(self.mesh().positions =~= before.positions.push(triple(v)));
                assert(self.mesh().faces =~= before.faces);
                assert(self.mesh().normals =~= before.normals);
                assert(self.mesh().uvs =~= before.uvs);
            }
        } else if has_prefix(line, face.as_slice()) {
            let a = match corner_at(line, &found, 1) {
                Ok(c) => c,
                Err(e) => {
                    return Err(e);
                },
            };
            let b = match corner_at(line, &found, 2) {
                Ok(c) => c,
                Err(e) => {
                    return Err(e);
                },
            };
            let c = match corner_at(line, &found, 3) {
                Ok(c) => c,
                Err(e) => {
                    return Err(e);
                },
            };
            let f: [Vec3i; 3] = [a, b, c];
            self.faces.push(f);
            proof {
                assert(f@ =~= Seq::<Vec3i>::empty().push(a).push(b).push(c));
                assert(self.mesh().faces =~= before.faces.push(f@));
                assert(self.mesh().positions =~= before.positions);
                assert(self.mesh().normals =~= before.normals);
                assert(self.mesh().uvs =~= before.uvs);
            }
        } else if has_prefix(line, texture.as_slice()) {
            let u = match number_at(line, &found, 1) {
                Ok(n) => n,
                Err(e) => {
                    return Err(e);
                },
            };
            let v = match number_at(line, &found, 2) {
                Ok(n) => n,
                Err(e) => {
                    return Err(e);
                },
            };
            let t: [Number; 2] = [u, v];
            self.uv.push(t);
            proof {
                assert(pair(t) =~= Seq::<Seq<u8>>::empty().push(w[1]).push(w[2]));
                assert(self.mesh().uvs =~= before.uvs.push(pair(t)));
                assert(self.mesh().positions =~= before.positions);
                assert(self.mesh().faces =~= before.faces);
                assert(self.mesh().normals =~= before.normals);
            }
        } else if has_prefix(line, normal.as_slice()) {
            let x = match number_at(line, &found, 1) {
                Ok(n) => n,
                Err(e) => {
                    return Err(e);
                },
            };
            let y = match number_at(line, &found, 2) {
                Ok(n) => n,
                Err(e) => {
                    return Err(e);
                },
            };
            let z = match number_at(line, &found, 3) {
                Ok(n) => n,
                Err(e) => {
                    return Err(e);
                },
            };
            let v = Vector3D { x: x, y: y, z: z };
            self.normals.push(v);
            proof {
                assert(triple(v) =~= Seq::<Seq<u8>>::empty().push(w[1]).push(w[2]).push(w[3]));
                assert(self.mesh().normals =~= before.normals.push(triple(v)));
                assert(self.mesh().positions =~= before.positions);
                assert(self.mesh().faces =~= before.faces);
                assert(self.mesh().uvs =~= before.uvs);
            }
        }
        Ok(())
    }
}

impl Default for Model {
    /// A mesh without anything in it, with a texture without cells.
    fn default() -> (m: Model)
        ensures
            m.mesh() == empty_mesh(),
    {
        Model::new()
    }
}

/// The reader of meshes.
pub struct Loader;

impl Loader {
    /// Reads a mesh from its text `obj` and its texture from the image
    /// `diffuse`. Fails as the mesh fails where its text is at fault, and
    /// else as the image fails.
    pub fn from_files(obj: &[u8], diffuse: &[u8]) -> (r: Result<Model, LoadError>)
        ensures
            match r {
                Ok(model) => mesh_of(obj@) == Ok::<Mesh, LoadError>(model.mesh()) && failure(
                    diffuse@,
                ) is None && shows(model.diffuse, diffuse@),
                Err(e) => match mesh_of(obj@) {
                    Err(first) => e == first,
                    Ok(_) => failure(diffuse@) == Some(e),
                },
            },
    {
        let mut model = match Self::load_obj(obj) {
            Ok(model) => model,
            Err(e) => {
                return Err(e);
            },
        };
        let ghost loaded = model.mesh();
        model.diffuse = match TgaImage::load(diffuse) {
            Ok(image) => image,
            Err(e) => {
                return Err(e);
            },
        };
        assert(model.mesh() == loaded);

        Ok(model)
    }

    /// Reads a mesh from its text. Succeeds unless a line that adds to the
    /// mesh lacks a number or holds a word that is not one. The texture of
    /// the mesh is left without cells.
    pub fn load_obj(text: &[u8]) -> (r: Result<Model, LoadError>)
        ensures
            match r {
                Ok(model) => mesh_of(text@) == Ok::<Mesh, LoadError>(model.mesh())
                    && model.diffuse.width() == 0 && model.diffuse.height() == 0,
                Err(e) => mesh_of(text@) == Err::<Mesh, LoadError>(e),
            },
    {
        let len = text.len();
        let mut model = Model::new();
        let mut pos: usize = 0;
        assert(text@.skip(0) =~= text@);
        while pos < len
            invariant
                pos <= len,
                len == text@.len(),
                mesh_of(text@) == with_text(model.mesh(), text@.skip(pos as int)),
                model.diffuse.width() == 0,
                model.diffuse.height() == 0,
            decreases len - pos,
        {
            let ghost tail = text@.skip(pos as int);
            let end = run_end(text, pos, Class::Line);
            let line = vstd::slice::slice_subrange(text, pos, end);
            assert(line@ =~= tail.take(end - pos));
            match model.add_line(line) {
                Ok(()) => {},
                Err(e) => {
                    return Err(e);
                },
            }
            if end >= len {
                assert(text@.skip(len as int).len() == 0);
                pos = len;
            } else {
                assert(tail.skip(end - pos + 1) =~= text@.skip(end + 1));
                pos = end + 1;
            }
        }
        Ok(model)
    }
}

} // verus!
