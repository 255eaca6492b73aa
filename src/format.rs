//! Rules around a format call: the byte order mark, which files are JSONC,
//! and when a result counts as unchanged.
use crate::config::Configuration;
use vstd::prelude::*;
use vstd::string::StringSliceAdditionalSpecFns;
use vstd::string::StrSliceExecFns;
use vstd::utf8::{encode_utf8, encode_utf8_decode_utf8, encode_utf8_first_scalar, encode_utf8_valid_utf8};

verus! {

/// The byte order mark.
pub const BOM: char = '\u{FEFF}';

/// The text without a leading byte order mark.
pub open spec fn without_bom(text: Seq<char>) -> Seq<char> {
    if text.len() > 0 && text[0] == BOM {
        text.drop_first()
    } else {
        text
    }
}

/// Removes a leading byte order mark.
pub fn strip_bom(text: &str) -> (r: &str)
    ensures
        r@ == without_bom(text@),
{
    if text.is_empty() || text.get_char(0) != BOM {
        return text;
    }
    proof {
        let chars = text@;
        let bytes = encode_utf8(chars);
        encode_utf8_first_scalar(chars);
        encode_utf8_valid_utf8(chars);
        assert(chars[0] as u32 == 0xFEFFu32);
        assert(vstd::utf8::has_width_3_encoding(0xFEFFu32));
        assert(vstd::utf8::encode_scalar(chars[0] as u32).len() == 3);
        assert(bytes =~= vstd::utf8::encode_scalar(chars[0] as u32) + encode_utf8(chars.drop_first()));
        reveal_with_fuel(vstd::utf8::is_char_boundary, 2);
        assert(vstd::utf8::is_char_boundary(bytes, 3));
    }
    let (_, rest) = text.split_at(3);
    proof {
        let chars = text@;
        assert(rest.spec_bytes() =~= encode_utf8(chars.drop_first()));
        encode_utf8_decode_utf8(rest@);
        encode_utf8_decode_utf8(chars.drop_first());
    }
    rest
}

/// The characters of `s`.
pub(crate) fn chars_of(s: &str) -> (r: Vec<char>)
    ensures
        r@ == s@,
{
    let n = s.unicode_len();
    let mut out: Vec<char> = Vec::new();
    let mut i: usize = 0;
    while i < n
        invariant
            n == s@.len(),
            i <= n,
            out@ == s@.take(i as int),
        decreases n - i,
    {
        out.push(s.get_char(i));
        assert(out@ =~= s@.take(i + 1));
        i = i + 1;
    }
    assert(out@ =~= s@);
    out
}

/// The index of the last `c` in `s`, or -1.
pub open spec fn last_index_of(s: Seq<char>, c: char) -> int
    decreases s.len(),
{
    if s.len() == 0 {
        -1
    } else if s.last() == c {
        s.len() - 1
    } else {
        last_index_of(s.drop_last(), c)
    }
}

proof fn lemma_last_index_bounds(s: Seq<char>, c: char)
    ensures
        -1 <= last_index_of(s, c) < s.len(),
        last_index_of(s, c) >= 0 ==> s[last_index_of(s, c)] == c,
        forall|k: int| last_index_of(s, c) < k < s.len() ==> s[k] != c,
    decreases s.len(),
{
    if s.len() > 0 && s.last() != c {
        lemma_last_index_bounds(s.drop_last(), c);
        assert forall|k: int| last_index_of(s, c) < k < s.len() implies s[k] != c by {
            if k < s.len() - 1 {
                assert(s.drop_last()[k] == s[k]);
            }
        }
    }
}

/// The last component of a path: what follows its last `/`.
pub open spec fn file_name(path: Seq<char>) -> Seq<char> {
    path.subrange(last_index_of(path, '/') + 1, path.len() as int)
}

/// The extension of a file name: what follows its last `.`, where that dot
/// is not its first character.
pub open spec fn extension(name: Seq<char>) -> Option<Seq<char>> {
    let d = last_index_of(name, '.');
    if d > 0 {
        Some(name.subrange(d + 1, name.len() as int))
    } else {
        None
    }
}

/// `s`, with ASCII letters in any case, reads `jsonc`.
pub open spec fn is_jsonc_word(s: Seq<char>) -> bool {
    &&& s.len() == 5
    &&& (s[0] == 'j' || s[0] == 'J')
    &&& (s[1] == 's' || s[1] == 'S')
    &&& (s[2] == 'o' || s[2] == 'O')
    &&& (s[3] == 'n' || s[3] == 'N')
    &&& (s[4] == 'c' || s[4] == 'C')
}

pub open spec fn ends_with(s: Seq<char>, suffix: Seq<char>) -> bool {
    suffix.len() <= s.len() && s.subrange(s.len() - suffix.len(), s.len() as int) == suffix
}

/// A file is JSONC where its extension is `jsonc` in any case, or where its
/// path ends with one of the configured suffixes.
pub open spec fn is_jsonc_path(path: Seq<char>, suffixes: Seq<Seq<char>>) -> bool {
    ||| (extension(file_name(path)) matches Some(e) && is_jsonc_word(e))
    ||| exists|i: int| 0 <= i < suffixes.len() && ends_with(path, #[trigger] suffixes[i])
}

fn last_index(s: &Vec<char>, from: usize, c: char) -> (r: Option<usize>)
    requires
        from <= s@.len(),
    ensures
        match r {
            Some(k) => from <= k < s@.len() && k == last_index_of(s@, c),
            None => last_index_of(s@, c) < from,
        },
{
    proof {
        lemma_last_index_bounds(s@, c);
    }
    let mut i = s.len();
    while i > from
        invariant
            from <= i <= s@.len(),
            forall|k: int| i <= k < s@.len() ==> s@[k] != c,
            -1 <= last_index_of(s@, c) < s@.len(),
            last_index_of(s@, c) >= 0 ==> s@[last_index_of(s@, c)] == c,
            forall|k: int| last_index_of(s@, c) < k < s@.len() ==> s@[k] != c,
        decreases i,
    {
        if s[i - 1] == c {
            return Some(i - 1);
        }
        i = i - 1;
    }
    None
}

fn has_jsonc_extension(path: &Vec<char>) -> (r: bool)
    ensures
        r == (extension(file_name(path@)) matches Some(e) && is_jsonc_word(e)),
{
    let n = path.len();
    proof {
        lemma_last_index_bounds(path@, '/');
    }
    let start = match last_index(path, 0, '/') {
        Some(k) => k + 1,
        None => 0,
    };
    let ghost name = path@.subrange(start as int, path@.len() as int);
    assert(name == file_name(path@));
    let dot = last_index(path, start, '.');
    proof {
        lemma_last_index_bounds(name, '.');
        lemma_last_index_bounds(path@, '.');
        if last_index_of(name, '.') >= 0 {
            assert(path@[start + last_index_of(name, '.')] == '.');
        }
        assert(last_index_of(name, '.') == if last_index_of(path@, '.') >= start as int {
            last_index_of(path@, '.') - start
        } else {
            -1
        }) by {
            lemma_last_index_shift(path@, start as int, '.');
        }
    }
    match dot {
        Some(d) if d > start => {
            proof {
                let e = name.subrange(d - start + 1, name.len() as int);
                assert(e =~= path@.subrange(d + 1, n as int));
            }
            n - d - 1 == 5 && (path[d + 1] == 'j' || path[d + 1] == 'J') && (path[d + 2] == 's'
                || path[d + 2] == 'S') && (path[d + 3] == 'o' || path[d + 3] == 'O') && (path[d + 4]
                == 'n' || path[d + 4] == 'N') && (path[d + 5] == 'c' || path[d + 5] == 'C')
        },
        _ => false,
    }
}

proof fn lemma_last_index_shift(s: Seq<char>, start: int, c: char)
    requires
        0 <= start <= s.len(),
    ensures
        last_index_of(s.subrange(start, s.len() as int), c) == if last_index_of(s, c) >= start {
            last_index_of(s, c) - start
        } else {
            -1
        },
    decreases s.len(),
{
    let t = s.subrange(start, s.len() as int);
    if s.len() == start {
        assert(t.len() == 0);
        lemma_last_index_bounds(s, c);
    } else if s.last() == c {
        assert(t.last() == c);
    } else {
        assert(t.drop_last() =~= s.drop_last().subrange(start, s.len() - 1));
        lemma_last_index_shift(s.drop_last(), start, c);
    }
}

fn ends_with_exec(s: &Vec<char>, suffix: &Vec<char>) -> (r: bool)
    ensures
        r == ends_with(s@, suffix@),
{
    if suffix.len() > s.len() {
        return false;
    }
    let n = s.len();
    let offset = n - suffix.len();
    let mut i: usize = 0;
    while i < suffix.len()
        invariant
            n == s@.len(),
            offset + suffix@.len() == n,
            i <= suffix@.len(),
            forall|k: int| 0 <= k < i ==> s@[offset + k] == suffix@[k],
        decreases suffix@.len() - i,
    {
        if s[offset + i] != suffix[i] {
            assert(s@.subrange(offset as int, s@.len() as int)[i as int] != suffix@[i as int]);
            return false;
        }
        i = i + 1;
    }
    assert(s@.subrange(offset as int, s@.len() as int) =~= suffix@);
    true
}

/// The views of a sequence of strings.
pub open spec fn string_views(strings: Seq<String>) -> Seq<Seq<char>> {
    strings.map_values(|s: String| s@)
}

/// Whether the file at `path` is JSONC: by its `jsonc` extension, in any
/// case, or by a suffix of `json_trailing_comma_files`.
pub fn is_jsonc_file(path: &str, config: &Configuration) -> (r: bool)
    ensures
        r == is_jsonc_path(path@, string_views(config.json_trailing_comma_files@)),
{
    let chars = chars_of(path);
    if has_jsonc_extension(&chars) {
        return true;
    }
    let files = &config.json_trailing_comma_files;
    let ghost suffixes = string_views(files@);
    let mut i: usize = 0;
    while i < files.len()
        invariant
            chars@ == path@,
            suffixes == string_views(files@),
            files@ == config.json_trailing_comma_files@,
            i <= files@.len(),
            forall|k: int| 0 <= k < i ==> !ends_with(path@, #[trigger] suffixes[k]),
        decreases files@.len() - i,
    {
        let suffix = chars_of(files[i].as_str());
        if ends_with_exec(&chars, &suffix) {
            assert(suffix@ == files@[i as int]@);
            assert(suffixes.len() == files@.len());
            assert(suffixes[i as int] == files@[i as int]@);
            assert(ends_with(path@, suffixes[i as int]));
            assert(is_jsonc_path(path@, suffixes));
            return true;
        }
        i = i + 1;
    }
    false
}

/// A path that ends with a configured suffix is JSONC, whatever its
/// extension.
pub proof fn lemma_configured_suffix_is_jsonc(path: Seq<char>, suffixes: Seq<Seq<char>>, i: int)
    requires
        0 <= i < suffixes.len(),
        ends_with(path, suffixes[i]),
    ensures
        is_jsonc_path(path, suffixes),
{
}

/// A file whose extension reads `jsonc` in any case is JSONC, whatever the
/// configured suffixes.
pub proof fn lemma_jsonc_extension_is_jsonc(path: Seq<char>, suffixes: Seq<Seq<char>>)
    requires
        extension(file_name(path)) matches Some(e) && is_jsonc_word(e),
    ensures
        is_jsonc_path(path, suffixes),
{
}

/// Without a configured suffix, a file is JSONC exactly by its extension:
/// one ending in `.json` is not.
pub proof fn lemma_json_extension_is_not_jsonc(path: Seq<char>)
    requires
        extension(file_name(path)) matches Some(e) && e == seq!['j', 's', 'o', 'n'],
    ensures
        !is_jsonc_path(path, Seq::empty()),
{
}

/// The result of a format: `None` where the output is the input as it
/// stands, so that an unchanged file is never reported as rewritten.
pub fn format_result(input: &str, output: String) -> (r: Option<String>)
    ensures
        output@ == input@ <==> r is None,
        r matches Some(s) ==> s@ == output@,
{
    let input_text = input.to_owned();
    if output == input_text {
        None
    } else {
        Some(output)
    }
}

} // verus!
