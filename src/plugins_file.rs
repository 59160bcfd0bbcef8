use vstd::prelude::*;

use crate::codec::{cp1252_decoded, cp1252_encoded, decode_cp1252, encode_cp1252};
use crate::enums::Error;

verus! {

pub const NEWLINE: u8 = 10;

/// The pieces of a text between newlines. A text that ends in a newline
/// has an empty last piece; the empty text has one empty piece.
pub open spec fn lines_of(b: Seq<u8>) -> Seq<Seq<u8>>
    decreases b.len(),
{
    if b.len() == 0 {
        seq![Seq::empty()]
    } else {
        let prev = lines_of(b.drop_last());
        if b.last() == NEWLINE {
            prev.push(Seq::empty())
        } else {
            prev.update(prev.len() - 1, prev.last().push(b.last()))
        }
    }
}

pub proof fn lemma_lines_of_nonempty(b: Seq<u8>)
    ensures
        lines_of(b).len() >= 1,
    decreases b.len(),
{
    if b.len() > 0 {
        lemma_lines_of_nonempty(b.drop_last());
    }
}

pub open spec fn line_views(ls: Seq<Vec<u8>>) -> Seq<Seq<u8>> {
    ls.map_values(|l: Vec<u8>| l@)
}

/// Splits the bytes at each newline.
pub fn split_lines(b: &[u8]) -> (r: Vec<Vec<u8>>)
    ensures
        line_views(r@) == lines_of(b@),
{
    let mut lines: Vec<Vec<u8>> = Vec::new();
    let mut cur: Vec<u8> = Vec::new();
    let mut i: usize = 0;
    proof {
        assert(b@.subrange(0, 0) =~= Seq::<u8>::empty());
        assert(line_views(lines@).push(cur@) =~= seq![Seq::<u8>::empty()]);
    }
    while i < b.len()
        invariant
            0 <= i <= b@.len(),
            line_views(lines@).push(cur@) == lines_of(b@.subrange(0, i as int)),
        decreases b@.len() - i,
    {
        let ghost before = line_views(lines@).push(cur@);
        proof {
            assert(b@.subrange(0, i + 1).drop_last() =~= b@.subrange(0, i as int));
        }
        if b[i] == NEWLINE {
            let done = cur;
            lines.push(done);
            cur = Vec::new();
            proof {
                assert(line_views(lines@).push(cur@) =~= before.push(Seq::empty()));
            }
        } else {
            let ghost c0 = cur@;
            cur.push(b[i]);
            proof {
                assert(line_views(lines@).push(cur@) =~= before.update(before.len() - 1, c0.push(b[i as int])));
            }
        }
        i += 1;
    }
    let ghost l0 = lines@;
    let ghost c = cur@;
    lines.push(cur);
    proof {
        assert(b@.subrange(0, i as int) =~= b@);
        assert(line_views(lines@) =~= line_views(l0).push(c));
    }
    lines
}

/// ASCII lower case of one byte; other bytes stay as they are.
pub open spec fn ascii_lower(c: u8) -> u8 {
    if 65 <= c <= 90 {
        (c + 32) as u8
    } else {
        c
    }
}

fn to_ascii_lower(c: u8) -> (r: u8)
    ensures
        r == ascii_lower(c),
{
    if 65 <= c && c <= 90 {
        c + 32
    } else {
        c
    }
}

/// The key of a Morrowind entry line, in lower case.
pub open spec fn game_file_key() -> Seq<u8> {
    seq![103u8, 97, 109, 101, 102, 105, 108, 101]
}

/// The line has the key `GameFile`, in any case, at `p`.
pub open spec fn key_at(l: Seq<u8>, p: int) -> bool {
    0 <= p && p + 8 <= l.len() && forall|j: int| 0 <= j < 8 ==> ascii_lower(#[trigger] l[p + j]) == game_file_key()[j]
}

pub open spec fn is_digit(c: u8) -> bool {
    48 <= c <= 57
}

/// How many digits follow one another from `q` on.
pub open spec fn digits_from(l: Seq<u8>, q: int) -> nat
    decreases l.len() - q,
{
    if q < 0 || q >= l.len() || !is_digit(l[q]) {
        0
    } else {
        1 + digits_from(l, q + 1)
    }
}

/// Where the value starts if `GameFile`, one to three digits and `=`
/// stand at `p`.
pub open spec fn value_start(l: Seq<u8>, p: int) -> Option<int> {
    let d = digits_from(l, p + 8);
    if key_at(l, p) && 1 <= d <= 3 && p + 8 + d < l.len() && l[p + 8 + d] == 61 {
        Some(p + 8 + d + 1)
    } else {
        None
    }
}

/// A plugin extension, `.esm` or `.esp` in any case, ends at `e`.
pub open spec fn extension_ends_at(l: Seq<u8>, e: int) -> bool {
    4 <= e <= l.len() && l[e - 4] == 46 && ascii_lower(l[e - 3]) == 101 && ascii_lower(l[e - 2]) == 115
        && (ascii_lower(l[e - 1]) == 109 || ascii_lower(l[e - 1]) == 112)
}

/// The last end at or before `e` of a value that starts at `s`: at least
/// one byte, then the extension.
pub open spec fn last_value_end(l: Seq<u8>, s: int, e: int) -> Option<int>
    decreases e - s,
{
    if e < s + 5 {
        None
    } else if extension_ends_at(l, e) {
        Some(e)
    } else {
        last_value_end(l, s, e - 1)
    }
}

/// The value of an entry that starts at `p`, as start and end.
pub open spec fn entry_at(l: Seq<u8>, p: int) -> Option<(int, int)> {
    match value_start(l, p) {
        Some(s) => match last_value_end(l, s, l.len() as int) {
            Some(e) => Some((s, e)),
            None => None,
        },
        None => None,
    }
}

/// The leftmost entry at or after `p`.
pub open spec fn first_entry_from(l: Seq<u8>, p: int) -> Option<(int, int)>
    decreases l.len() - p,
{
    if p < 0 || p >= l.len() {
        None
    } else if entry_at(l, p) is Some {
        entry_at(l, p)
    } else {
        first_entry_from(l, p + 1)
    }
}

/// The plugin name of a Morrowind ini line `GameFile<n>=<name>`: the
/// leftmost such entry, its name running to the last `.esm` or `.esp`;
/// empty if the line has none.
pub open spec fn game_file_value(l: Seq<u8>) -> Seq<u8> {
    match first_entry_from(l, 0) {
        Some((s, e)) => l.subrange(s, e),
        None => Seq::empty(),
    }
}

fn has_key_at(l: &[u8], p: usize) -> (r: bool)
    requires
        p <= l@.len(),
    ensures
        r == key_at(l@, p as int),
{
    if l.len() - p < 8 {
        return false;
    }
    let key: [u8; 8] = [103u8, 97, 109, 101, 102, 105, 108, 101];
    let mut j: usize = 0;
    while j < 8
        invariant
            0 <= j <= 8,
            p + 8 <= l@.len() <= usize::MAX,
            key@ == game_file_key(),
            forall|k: int| 0 <= k < j ==> ascii_lower(#[trigger] l@[p + k]) == game_file_key()[k],
        decreases 8 - j,
    {
        if to_ascii_lower(l[p + j]) != key[j] {
            return false;
        }
        j += 1;
    }
    true
}

fn count_digits(l: &[u8], q: usize) -> (r: usize)
    requires
        q <= l@.len(),
    ensures
        r == digits_from(l@, q as int) || (r == 4 && digits_from(l@, q as int) >= 4),
{
    let len = l.len();
    let mut n: usize = 0;
    while n < 4 && n < len - q && 48 <= l[q + n] && l[q + n] <= 57
        invariant
            0 <= n <= 4,
            len == l@.len(),
            q + n <= l@.len(),
            digits_from(l@, q as int) == n + digits_from(l@, (q + n) as int),
        decreases 4 - n,
    {
        n += 1;
    }
    n
}

fn entry_at_exec(l: &[u8], p: usize) -> (r: Option<(usize, usize)>)
    requires
        p < l@.len(),
    ensures
        match r {
            Some((s, e)) => entry_at(l@, p as int) == Some((s as int, e as int)) && s <= e <= l@.len(),
            None => entry_at(l@, p as int) is None,
        },
{
    let len = l.len();
    if !has_key_at(l, p) {
        return None;
    }
    let d = count_digits(l, p + 8);
    if d < 1 || d > 3 || d >= l.len() - (p + 8) || l[p + 8 + d] != 61 {
        return None;
    }
    let s = p + 8 + d + 1;
    let mut e = l.len();
    while e >= s && e - s >= 5
        invariant
            s <= l@.len(),
            s <= e,
            e <= l@.len(),
            value_start(l@, p as int) == Some(s as int),
            last_value_end(l@, s as int, l@.len() as int) == last_value_end(l@, s as int, e as int),
        decreases e,
    {
        if l[e - 4] == 46 && to_ascii_lower(l[e - 3]) == 101 && to_ascii_lower(l[e - 2]) == 115 && (
        to_ascii_lower(l[e - 1]) == 109 || to_ascii_lower(l[e - 1]) == 112) {
            return Some((s, e));
        }
        e -= 1;
    }
    None
}

/// The plugin name that a Morrowind ini line lists, or nothing.
pub fn extract_plugin_name_from_line(line: &[u8]) -> (r: Vec<u8>)
    ensures
        r@ == game_file_value(line@),
{
    let mut p: usize = 0;
    while p < line.len()
        invariant
            0 <= p <= line@.len(),
            first_entry_from(line@, 0) == first_entry_from(line@, p as int),
        decreases line@.len() - p,
    {
        match entry_at_exec(line, p) {
            Some((s, e)) => {
                proof {
                    assert(first_entry_from(line@, p as int) == Some((s as int, e as int)));
                }
                let mut r: Vec<u8> = Vec::new();
                let mut k: usize = s;
                while k < e
                    invariant
                        s <= k <= e <= line@.len(),
                        r@ == line@.subrange(s as int, k as int),
                    decreases e - k,
                {
                    r.push(line[k]);
                    proof {
                        assert(line@.subrange(s as int, k + 1) =~= line@.subrange(s as int, k as int).push(line@[k as int]));
                    }
                    k += 1;
                }
                return r;
            },
            None => {},
        }
        p += 1;
    }
    Vec::new()
}

/// Appends the bytes of `src`.
pub fn append_bytes(out: &mut Vec<u8>, src: &[u8])
    ensures
        final(out)@ == old(out)@ + src@,
{
    let mut k: usize = 0;
    while k < src.len()
        invariant
            0 <= k <= src@.len(),
            out@ == old(out)@ + src@.subrange(0, k as int),
        decreases src@.len() - k,
    {
        out.push(src[k]);
        proof {
            assert(src@.subrange(0, k + 1) =~= src@.subrange(0, k as int).push(src@[k as int]));
            assert(out@ =~= old(out)@ + src@.subrange(0, k + 1));
        }
        k += 1;
    }
    assert(src@.subrange(0, k as int) =~= src@);
}

/// What a line of the active-plugins file lists: the `GameFile` value
/// for Morrowind, the whole line otherwise.
pub open spec fn listed_value(l: Seq<u8>, morrowind: bool) -> Seq<u8> {
    if morrowind {
        game_file_value(l)
    } else {
        l
    }
}

/// The non-empty values that the lines list, in order.
pub open spec fn listed_values(ls: Seq<Seq<u8>>, morrowind: bool) -> Seq<Seq<u8>>
    decreases ls.len(),
{
    if ls.len() == 0 {
        Seq::empty()
    } else {
        let rest = listed_values(ls.drop_last(), morrowind);
        let v = listed_value(ls.last(), morrowind);
        if v.len() == 0 {
            rest
        } else {
            rest.push(v)
        }
    }
}

/// The plugin names that an active-plugins file lists, in Windows-1252,
/// one per line, skipping lines that list nothing.
pub fn read_plugin_names(content: &[u8], morrowind: bool) -> (r: Result<Vec<String>, Error>)
    ensures
        r is Ok <==> forall|i: int|
            0 <= i < listed_values(lines_of(content@), morrowind).len() ==> (#[trigger] cp1252_decoded(
                listed_values(lines_of(content@), morrowind)[i],
            )) is Some,
        r matches Ok(names) ==> names@.len() == listed_values(lines_of(content@), morrowind).len()
            && forall|i: int|
            0 <= i < names@.len() ==> cp1252_decoded(listed_values(lines_of(content@), morrowind)[i])
                == Some(#[trigger] names@[i]@),
        r matches Err(e) ==> e is DecodeError,
{
    let lines = split_lines(content);
    let ghost ls = line_views(lines@);
    let mut names: Vec<String> = Vec::new();
    let mut i: usize = 0;
    while i < lines.len()
        invariant
            0 <= i <= ls.len(),
            ls == line_views(lines@),
            ls == lines_of(content@),
            names@.len() == listed_values(ls.subrange(0, i as int), morrowind).len(),
            forall|k: int|
                0 <= k < names@.len() ==> cp1252_decoded(listed_values(ls.subrange(0, i as int), morrowind)[k])
                    == Some(#[trigger] names@[k]@),
            forall|k: int|
                0 <= k < listed_values(ls.subrange(0, i as int), morrowind).len() ==> (#[trigger] cp1252_decoded(
                    listed_values(ls.subrange(0, i as int), morrowind)[k],
                )) is Some,
        decreases ls.len() - i,
    {
        proof {
            assert(ls.subrange(0, i + 1).drop_last() =~= ls.subrange(0, i as int));
            assert(ls[i as int] == lines@[i as int]@);
        }
        let value = if morrowind {
            extract_plugin_name_from_line(lines[i].as_slice())
        } else {
            let mut v: Vec<u8> = Vec::new();
            append_bytes(&mut v, lines[i].as_slice());
            assert(v@ =~= lines@[i as int]@);
            v
        };
        let ghost prev = listed_values(ls.subrange(0, i as int), morrowind);
        if value.len() > 0 {
            match decode_cp1252(value.as_slice()) {
                Ok(name) => {
                    names.push(name);
                },
                Err(msg) => {
                    proof {
                        let all = listed_values(ls, morrowind);
                        lemma_listed_values_prefix(ls, i + 1, morrowind);
                        assert(listed_values(ls.subrange(0, i + 1), morrowind) == prev.push(value@));
                        assert(all[prev.len() as int] == value@);
                    }
                    return Err(Error::DecodeError(msg));
                },
            }
        }
        i += 1;
    }
    proof {
        assert(ls.subrange(0, i as int) =~= ls);
    }
    Ok(names)
}

/// The values listed by a prefix of the lines come first among all values.
pub proof fn lemma_listed_values_prefix(ls: Seq<Seq<u8>>, n: int, morrowind: bool)
    requires
        0 <= n <= ls.len(),
    ensures
        listed_values(ls.subrange(0, n), morrowind).len() <= listed_values(ls, morrowind).len(),
        forall|k: int|
            0 <= k < listed_values(ls.subrange(0, n), morrowind).len() ==> (#[trigger] listed_values(ls, morrowind)[k])
                == listed_values(ls.subrange(0, n), morrowind)[k],
    decreases ls.len() - n,
{
    if n < ls.len() {
        lemma_listed_values_prefix(ls, n + 1, morrowind);
        assert(ls.subrange(0, n + 1).drop_last() =~= ls.subrange(0, n));
    } else {
        assert(ls.subrange(0, n) =~= ls);
    }
}

/// The decimal digits of `n`.
pub open spec fn decimal(n: nat) -> Seq<u8>
    decreases n,
{
    if n < 10 {
        seq![(48 + n) as u8]
    } else {
        decimal(n / 10).push((48 + n % 10) as u8)
    }
}

/// Appends the decimal digits of `n`.
pub fn push_decimal(out: &mut Vec<u8>, n: usize)
    ensures
        final(out)@ == old(out)@ + decimal(n as nat),
    decreases n,
{
    if n < 10 {
        out.push(48u8 + n as u8);
        assert(final(out)@ =~= old(out)@ + decimal(n as nat));
    } else {
        push_decimal(out, n / 10);
        out.push(48u8 + (n % 10) as u8);
        assert(final(out)@ =~= old(out)@ + decimal(n as nat));
    }
}

/// `GameFile`, the key of a Morrowind entry line.
pub open spec fn game_file_prefix() -> Seq<u8> {
    seq![71u8, 97, 109, 101, 70, 105, 108, 101]
}

/// The line that lists the `i`th active plugin, already encoded.
pub open spec fn entry_line(i: nat, name: Seq<u8>, morrowind: bool) -> Seq<u8> {
    if morrowind {
        game_file_prefix() + decimal(i) + seq![61u8] + name + seq![NEWLINE]
    } else {
        name + seq![NEWLINE]
    }
}

/// The lines that list the given encoded names.
pub open spec fn entry_lines(names: Seq<Seq<u8>>, morrowind: bool) -> Seq<u8>
    decreases names.len(),
{
    if names.len() == 0 {
        Seq::empty()
    } else {
        entry_lines(names.drop_last(), morrowind) + entry_line((names.len() - 1) as nat, names.last(), morrowind)
    }
}

/// The section header after which Morrowind's ini lists its plugins.
pub open spec fn game_files_header() -> Seq<u8> {
    seq![91u8, 71, 97, 109, 101, 32, 70, 105, 108, 101, 115, 93]
}

pub open spec fn is_header_line(l: Seq<u8>) -> bool {
    l.len() >= 12 && l.subrange(0, 12) == game_files_header()
}

/// The lines of a file as a line reader yields them: a last empty piece
/// is no line.
pub open spec fn file_lines(b: Seq<u8>) -> Seq<Seq<u8>> {
    let ls = lines_of(b);
    if ls.last().len() == 0 {
        ls.drop_last()
    } else {
        ls
    }
}

/// The lines up to and including the first `[Game Files]` line (all lines
/// if there is none), each ended by a newline.
pub open spec fn prelude_of(ls: Seq<Seq<u8>>) -> Seq<u8>
    decreases ls.len(),
{
    if ls.len() == 0 {
        Seq::empty()
    } else if is_header_line(ls[0]) {
        ls[0].push(NEWLINE)
    } else {
        ls[0].push(NEWLINE) + prelude_of(ls.subrange(1, ls.len() as int))
    }
}

fn starts_with_header(l: &Vec<u8>) -> (r: bool)
    ensures
        r == is_header_line(l@),
{
    if l.len() < 12 {
        return false;
    }
    let header: [u8; 12] = [91u8, 71, 97, 109, 101, 32, 70, 105, 108, 101, 115, 93];
    let mut j: usize = 0;
    while j < 12
        invariant
            0 <= j <= 12,
            l@.len() >= 12,
            header@ == game_files_header(),
            forall|k: int| 0 <= k < j ==> l@[k] == #[trigger] game_files_header()[k],
        decreases 12 - j,
    {
        if l[j] != header[j] {
            return false;
        }
        j += 1;
    }
    assert(l@.subrange(0, 12) =~= game_files_header());
    true
}

/// What an existing Morrowind ini keeps ahead of the plugin list.
pub fn file_prelude(content: &[u8]) -> (r: Vec<u8>)
    ensures
        r@ == prelude_of(file_lines(content@)),
{
    let mut lines = split_lines(content);
    proof {
        lemma_lines_of_nonempty(content@);
    }
    let last = lines.len() - 1;
    if lines[last].len() == 0 {
        lines.pop();
    }
    let ghost ls = line_views(lines@);
    assert(ls =~= file_lines(content@));
    let mut out: Vec<u8> = Vec::new();
    let mut i: usize = 0;
    assert(ls.subrange(0, ls.len() as int) =~= ls);
    assert(out@ + prelude_of(ls) =~= prelude_of(ls));
    while i < lines.len()
        invariant
            0 <= i <= ls.len(),
            ls == line_views(lines@),
            ls == file_lines(content@),
            out@ + prelude_of(ls.subrange(i as int, ls.len() as int)) == prelude_of(ls),
        decreases ls.len() - i,
    {
        let ghost rest = ls.subrange(i as int, ls.len() as int);
        assert(rest[0] == lines@[i as int]@);
        assert(rest.subrange(1, rest.len() as int) =~= ls.subrange(i + 1, ls.len() as int));
        let ghost o0 = out@;
        append_bytes(&mut out, lines[i].as_slice());
        out.push(NEWLINE);
        proof {
            assert(out@ =~= o0 + rest[0].push(NEWLINE));
        }
        if starts_with_header(&lines[i]) {
            proof {
                assert(prelude_of(ls.subrange(i as int, ls.len() as int)) == rest[0].push(NEWLINE));
                assert(out@ + Seq::<u8>::empty() =~= out@);
            }
            return out;
        }
        proof {
            assert(o0 + rest[0].push(NEWLINE) + prelude_of(ls.subrange(i + 1, ls.len() as int)) =~= o0 + (
            rest[0].push(NEWLINE) + prelude_of(ls.subrange(i + 1, ls.len() as int))));
        }
        i += 1;
    }
    proof {
        assert(ls.subrange(i as int, ls.len() as int) =~= Seq::<Seq<u8>>::empty());
        assert(out@ + Seq::<u8>::empty() =~= out@);
    }
    out
}

/// The contents of an active-plugins file that lists `names`: after the
/// prelude kept from an existing Morrowind ini, one line per name,
/// `GameFile<i>=<name>` for Morrowind and the bare name otherwise, all in
/// Windows-1252.
pub fn active_plugins_file_content(names: &Vec<String>, morrowind: bool, prelude: &Vec<u8>) -> (r: Result<
    Vec<u8>,
    Error,
>)
    ensures
        r is Ok <==> forall|i: int| 0 <= i < names@.len() ==> (#[trigger] cp1252_encoded(names@[i]@)) is Some,
        r matches Ok(b) ==> b@ == prelude@ + entry_lines(
            names@.map_values(|n: String| cp1252_encoded(n@)->Some_0),
            morrowind,
        ),
        r matches Err(e) ==> e is EncodeError,
{
    let ghost encs = names@.map_values(|n: String| cp1252_encoded(n@)->Some_0);
    let mut out: Vec<u8> = prelude.clone();
    let mut i: usize = 0;
    while i < names.len()
        invariant
            0 <= i <= names@.len(),
            encs == names@.map_values(|n: String| cp1252_encoded(n@)->Some_0),
            forall|k: int| 0 <= k < i ==> (#[trigger] cp1252_encoded(names@[k]@)) is Some,
            out@ == prelude@ + entry_lines(encs.subrange(0, i as int), morrowind),
        decreases names@.len() - i,
    {
        let encoded = match encode_cp1252(names[i].as_str()) {
            Ok(b) => b,
            Err(msg) => {
                return Err(Error::EncodeError(msg));
            },
        };
        let ghost o0 = out@;
        if morrowind {
            out.push(71u8);
            out.push(97u8);
            out.push(109u8);
            out.push(101u8);
            out.push(70u8);
            out.push(105u8);
            out.push(108u8);
            out.push(101u8);
            push_decimal(&mut out, i);
            out.push(61u8);
        }
        append_bytes(&mut out, encoded.as_slice());
        out.push(NEWLINE);
        proof {
            assert(encs[i as int] == encoded@);
            assert(encs.subrange(0, i + 1).drop_last() =~= encs.subrange(0, i as int));
            assert(out@ =~= o0 + entry_line(i as nat, encoded@, morrowind));
            assert(out@ =~= prelude@ + entry_lines(encs.subrange(0, i + 1), morrowind));
        }
        i += 1;
    }
    proof {
        assert(encs.subrange(0, i as int) =~= encs);
    }
    Ok(out)
}

/// The marker of an active plugin in an asterisk-style plugins file.
pub const ASTERISK: u8 = 42;

/// The line that lists one plugin, already encoded, in an asterisk-style
/// plugins file: `*` first if it is active.
pub open spec fn asterisk_line(name: Seq<u8>, active: bool) -> Seq<u8> {
    if active {
        seq![ASTERISK] + name
    } else {
        name
    }
}

/// An asterisk-style plugins file that lists the given plugins, one line
/// each.
pub open spec fn asterisk_content(es: Seq<(Seq<u8>, bool)>) -> Seq<u8>
    decreases es.len(),
{
    if es.len() == 0 {
        Seq::empty()
    } else {
        asterisk_content(es.drop_last()) + asterisk_line(es.last().0, es.last().1) + seq![NEWLINE]
    }
}

/// What one line of an asterisk-style plugins file lists.
pub open spec fn asterisk_entry(l: Seq<u8>) -> (Seq<u8>, bool) {
    if l.len() > 0 && l[0] == ASTERISK {
        (l.subrange(1, l.len() as int), true)
    } else {
        (l, false)
    }
}

/// What the non-empty lines of an asterisk-style plugins file list.
pub open spec fn asterisk_entries(ls: Seq<Seq<u8>>) -> Seq<(Seq<u8>, bool)>
    decreases ls.len(),
{
    if ls.len() == 0 {
        Seq::empty()
    } else if ls.last().len() == 0 {
        asterisk_entries(ls.drop_last())
    } else {
        asterisk_entries(ls.drop_last()).push(asterisk_entry(ls.last()))
    }
}

pub open spec fn entry_views(es: Seq<(Vec<u8>, bool)>) -> Seq<(Seq<u8>, bool)> {
    es.map_values(|e: (Vec<u8>, bool)| (e.0@, e.1))
}

/// The plugins that an asterisk-style plugins file lists, each with
/// whether it is active.
pub fn read_asterisk_entries(content: &[u8]) -> (r: Vec<(Vec<u8>, bool)>)
    ensures
        entry_views(r@) == asterisk_entries(lines_of(content@)),
{
    let lines = split_lines(content);
    let ghost ls = line_views(lines@);
    let mut r: Vec<(Vec<u8>, bool)> = Vec::new();
    let mut i: usize = 0;
    while i < lines.len()
        invariant
            0 <= i <= ls.len(),
            ls == line_views(lines@),
            entry_views(r@) == asterisk_entries(ls.subrange(0, i as int)),
        decreases ls.len() - i,
    {
        proof {
            assert(ls.subrange(0, i + 1).drop_last() =~= ls.subrange(0, i as int));
            assert(ls[i as int] == lines@[i as int]@);
        }
        let line = &lines[i];
        if line.len() > 0 {
            let ghost r0 = entry_views(r@);
            let mut name: Vec<u8> = Vec::new();
            let active = line[0] == ASTERISK;
            let start: usize = if active { 1 } else { 0 };
            let mut k: usize = start;
            while k < line.len()
                invariant
                    start <= k <= line@.len(),
                    name@ == line@.subrange(start as int, k as int),
                decreases line@.len() - k,
            {
                name.push(line[k]);
                proof {
                    assert(line@.subrange(start as int, k + 1) =~= line@.subrange(start as int, k as int).push(line@[k as int]));
                }
                k += 1;
            }
            proof {
                if !active {
                    assert(line@.subrange(0, k as int) =~= line@);
                }
            }
            r.push((name, active));
            proof {
                assert(entry_views(r@) =~= r0.push(asterisk_entry(ls[i as int])));
            }
        }
        i += 1;
    }
    proof {
        assert(ls.subrange(0, i as int) =~= ls);
    }
    r
}

/// An asterisk-style plugins file that lists the given plugins.
pub fn write_asterisk_entries(es: &Vec<(Vec<u8>, bool)>) -> (r: Vec<u8>)
    ensures
        r@ == asterisk_content(entry_views(es@)),
{
    let ghost v = entry_views(es@);
    let mut out: Vec<u8> = Vec::new();
    let mut i: usize = 0;
    while i < es.len()
        invariant
            0 <= i <= es@.len(),
            v == entry_views(es@),
            out@ == asterisk_content(v.subrange(0, i as int)),
        decreases es@.len() - i,
    {
        let ghost o0 = out@;
        if es[i].1 {
            out.push(ASTERISK);
        }
        append_bytes(&mut out, es[i].0.as_slice());
        out.push(NEWLINE);
        proof {
            assert(v.subrange(0, i + 1).drop_last() =~= v.subrange(0, i as int));
            assert(v[i as int] == (es@[i as int].0@, es@[i as int].1));
            assert(out@ =~= o0 + asterisk_line(v[i as int].0, v[i as int].1) + seq![NEWLINE]);
        }
        i += 1;
    }
    proof {
        assert(v.subrange(0, i as int) =~= v);
    }
    out
}

/// Splitting text that ends in a line and a newline: the line closes the
/// last piece, and an empty piece follows.
pub proof fn lemma_lines_of_line(a: Seq<u8>, l: Seq<u8>)
    requires
        forall|j: int| 0 <= j < l.len() ==> l[j] != NEWLINE,
    ensures
        lines_of(a + l + seq![NEWLINE]) == ({
            let p = lines_of(a);
            p.update(p.len() - 1, p.last() + l).push(Seq::empty())
        }),
{
    lemma_lines_of_text(a, l);
    let b = a + l + seq![NEWLINE];
    assert(b.drop_last() =~= a + l);
}

/// Splitting text followed by bytes that hold no newline extends the last
/// piece.
pub proof fn lemma_lines_of_text(a: Seq<u8>, l: Seq<u8>)
    requires
        forall|j: int| 0 <= j < l.len() ==> l[j] != NEWLINE,
    ensures
        lines_of(a + l) == ({
            let p = lines_of(a);
            p.update(p.len() - 1, p.last() + l)
        }),
    decreases l.len(),
{
    lemma_lines_of_nonempty(a);
    let p = lines_of(a);
    if l.len() == 0 {
        assert(a + l =~= a);
        assert(p.last() + l =~= p.last());
        assert(p.update(p.len() - 1, p.last()) =~= p);
    } else {
        let l0 = l.drop_last();
        lemma_lines_of_text(a, l0);
        assert((a + l).drop_last() =~= a + l0);
        assert((p.last() + l0).push(l.last()) =~= p.last() + l);
        let q = p.update(p.len() - 1, p.last() + l0);
        assert(q.update(q.len() - 1, q.last().push(l.last())) =~= p.update(p.len() - 1, p.last() + l));
    }
}

/// Listing plugins in an asterisk-style file and reading the file back
/// gives the same plugins, in order, with the same active states, provided
/// each encoded name is non-empty, holds no newline and does not start
/// with `*`.
pub proof fn lemma_asterisk_round_trip(es: Seq<(Seq<u8>, bool)>)
    requires
        forall|i: int|
            0 <= i < es.len() ==> (#[trigger] es[i]).0.len() > 0 && es[i].0[0] != ASTERISK && forall|j: int|
                0 <= j < es[i].0.len() ==> es[i].0[j] != NEWLINE,
    ensures
        asterisk_entries(lines_of(asterisk_content(es))) == es,
    decreases es.len(),
{
    lemma_asterisk_lines(es);
    let ls = Seq::new(es.len(), |i: int| asterisk_line(es[i].0, es[i].1));
    assert(lines_of(asterisk_content(es)).drop_last() =~= ls);
    lemma_asterisk_entries_of_lines(es);
}

proof fn lemma_asterisk_lines(es: Seq<(Seq<u8>, bool)>)
    requires
        forall|i: int|
            0 <= i < es.len() ==> (#[trigger] es[i]).0.len() > 0 && es[i].0[0] != ASTERISK && forall|j: int|
                0 <= j < es[i].0.len() ==> es[i].0[j] != NEWLINE,
    ensures
        lines_of(asterisk_content(es)) == Seq::new(es.len(), |i: int| asterisk_line(es[i].0, es[i].1)).push(
            Seq::<u8>::empty(),
        ),
    decreases es.len(),
{
    let ls = Seq::new(es.len(), |i: int| asterisk_line(es[i].0, es[i].1));
    if es.len() == 0 {
        assert(asterisk_content(es) =~= Seq::<u8>::empty());
        assert(ls.push(Seq::<u8>::empty()) =~= seq![Seq::<u8>::empty()]);
    } else {
        let e0 = es.drop_last();
        lemma_asterisk_lines(e0);
        let body = asterisk_line(es.last().0, es.last().1);
        assert forall|j: int| 0 <= j < body.len() implies body[j] != NEWLINE by {
            if es.last().1 {
                if j > 0 {
                    assert(body[j] == es.last().0[j - 1]);
                }
            }
        }
        lemma_lines_of_line(asterisk_content(e0), body);
        let p = lines_of(asterisk_content(e0));
        assert(p.last() + body =~= body);
        assert(p.update(p.len() - 1, body).push(Seq::<u8>::empty()) =~= ls.push(Seq::<u8>::empty()));
    }
}

proof fn lemma_asterisk_entries_of_lines(es: Seq<(Seq<u8>, bool)>)
    requires
        forall|i: int|
            0 <= i < es.len() ==> (#[trigger] es[i]).0.len() > 0 && es[i].0[0] != ASTERISK && forall|j: int|
                0 <= j < es[i].0.len() ==> es[i].0[j] != NEWLINE,
    ensures
        asterisk_entries(Seq::new(es.len(), |i: int| asterisk_line(es[i].0, es[i].1))) == es,
        asterisk_entries(Seq::new(es.len(), |i: int| asterisk_line(es[i].0, es[i].1)).push(Seq::<u8>::empty())) == es,
    decreases es.len(),
{
    let ls = Seq::new(es.len(), |i: int| asterisk_line(es[i].0, es[i].1));
    assert(ls.push(Seq::<u8>::empty()).drop_last() =~= ls);
    if es.len() == 0 {
        assert(es =~= Seq::<(Seq<u8>, bool)>::empty());
    } else {
        let e0 = es.drop_last();
        lemma_asterisk_entries_of_lines(e0);
        assert(ls.drop_last() =~= Seq::new(e0.len(), |i: int| asterisk_line(e0[i].0, e0[i].1)));
        let last = es.last();
        let l = ls.last();
        if last.1 {
            assert(l[0] == ASTERISK);
            assert(l.subrange(1, l.len() as int) =~= last.0);
        } else {
            assert(l == last.0);
        }
        assert(asterisk_entry(l) == last);
        assert(es =~= e0.push(last));
    }
}

} // verus!
