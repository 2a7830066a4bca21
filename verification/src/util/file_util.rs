use vstd::prelude::*;
use vstd::slice::slice_subrange;
use vstd::string::StringSliceAdditionalSpecFns;

verus! {

/// Whether a byte is an ASCII digit.
pub open spec fn is_digit(b: u8) -> bool {
    48 <= b <= 57
}

/// The number that ASCII digits spell.
pub open spec fn decimal_value(digits: Seq<u8>) -> nat
    decreases digits.len(),
{
    if digits.len() == 0 {
        0
    } else {
        decimal_value(digits.drop_last()) * 10 + (digits.last() - 48) as nat
    }
}

/// The digits of a number: what is left when one leading `+` is taken off.
pub open spec fn unsigned_digits(text: Seq<u8>) -> Seq<u8> {
    if text.len() > 0 && text[0] == 43 {
        text.drop_first()
    } else {
        text
    }
}

/// The number that a text spells: one or more ASCII digits, with or
/// without a `+` before them, whose value fits.
pub open spec fn parse_id(text: Seq<u8>) -> Option<usize> {
    let digits = unsigned_digits(text);
    if digits.len() > 0 && (forall|i: int| 0 <= i < digits.len() ==> is_digit(digits[i]))
        && decimal_value(digits) <= usize::MAX {
        Some(decimal_value(digits) as usize)
    } else {
        None
    }
}

/// The place of the last `.` of a name that is not its first byte, the
/// length of the name where there is none.
pub open spec fn stem_len(name: Seq<u8>) -> int
    decreases name.len(),
{
    if name.len() <= 1 {
        name.len() as int
    } else if name.last() == 46 {
        name.len() - 1
    } else {
        let rest = stem_len(name.drop_last());
        if rest == name.len() - 1 {
            name.len() as int
        } else {
            rest
        }
    }
}

/// A file name without its extension.
pub open spec fn file_stem(name: Seq<u8>) -> Seq<u8> {
    name.subrange(0, stem_len(name))
}

/// The id in a file name: the number that follows `prefix` in the name
/// without its extension.
pub open spec fn id_of(name: Seq<u8>, prefix: Seq<u8>) -> Option<usize> {
    let stem = file_stem(name);
    if prefix.len() <= stem.len() && stem.subrange(0, prefix.len() as int) == prefix {
        parse_id(stem.subrange(prefix.len() as int, stem.len() as int))
    } else {
        None
    }
}

/// The dot found by going back from the end is the dot of the stem.
proof fn lemma_stem_len_is(name: Seq<u8>, at: int)
    requires
        0 <= at <= name.len(),
        at < name.len() ==> at >= 1 && name[at] == 46,
        at == name.len() || forall|i: int| at < i < name.len() ==> name[i] != 46,
        at == name.len() ==> forall|i: int| 1 <= i < name.len() ==> name[i] != 46,
    ensures
        stem_len(name) == at,
    decreases name.len(),
{
    if name.len() <= 1 {
    } else if name.last() == 46 {
    } else {
        let shorter = name.drop_last();
        if at == name.len() {
            assert forall|i: int| 1 <= i < shorter.len() implies shorter[i] != 46 by {
                assert(shorter[i] == name[i]);
            }
            lemma_stem_len_is(shorter, shorter.len() as int);
        } else {
            assert(shorter[at] == name[at]);
            assert forall|i: int| at < i < shorter.len() implies shorter[i] != 46 by {
                assert(shorter[i] == name[i]);
            }
            lemma_stem_len_is(shorter, at);
        }
    }
}

/// A longer row of digits does not spell a smaller number.
proof fn lemma_decimal_prefix(digits: Seq<u8>, n: int)
    requires
        0 <= n <= digits.len(),
    ensures
        decimal_value(digits.subrange(0, n)) <= decimal_value(digits),
    decreases digits.len() - n,
{
    if n < digits.len() {
        lemma_decimal_prefix(digits, n + 1);
        let longer = digits.subrange(0, n + 1);
        assert(longer.drop_last() =~= digits.subrange(0, n));
    } else {
        assert(digits.subrange(0, n) =~= digits);
    }
}

/// The number that `text` spells.
pub fn parse_usize(text: &[u8]) -> (id: Option<usize>)
    ensures
        id == parse_id(text@),
{
    let start: usize = if text.len() > 0 && text[0] == 43 {
        1
    } else {
        0
    };
    let ghost digits = unsigned_digits(text@);
    assert(digits =~= text@.subrange(start as int, text@.len() as int));
    if start == text.len() {
        return None;
    }
    let mut value: usize = 0;
    let mut i: usize = start;
    while i < text.len()
        invariant
            start <= i <= text@.len(),
            digits == unsigned_digits(text@),
            digits == text@.subrange(start as int, text@.len() as int),
            forall|j: int| 0 <= j < i - start ==> is_digit(digits[j]),
            value == decimal_value(digits.subrange(0, i - start)),
        decreases text@.len() - i,
    {
        let b: u8 = text[i];
        if b < 48 || b > 57 {
            assert(!is_digit(digits[i - start]));
            return None;
        }
        let ghost longer = digits.subrange(0, i - start + 1);
        proof {
            assert(longer.drop_last() =~= digits.subrange(0, i - start));
            assert(longer.last() == b);
            lemma_decimal_prefix(digits, i - start + 1);
        }
        let scaled: usize = match value.checked_mul(10) {
            Some(v) => v,
            None => {
                return None;
            },
        };
        value = match scaled.checked_add((b - 48) as usize) {
            Some(v) => v,
            None => {
                return None;
            },
        };
        i = i + 1;
    }
    assert(digits.subrange(0, digits.len() as int) =~= digits);
    Some(value)
}

/// The id in a file name: the number that follows `prefix` in the name
/// without its extension.
pub fn get_id(file_name: &[u8], prefix: &[u8]) -> (id: Option<usize>)
    ensures
        id == id_of(file_name@, prefix@),
{
    // the stem ends before the last dot that is not the first byte
    let mut at: usize = file_name.len();
    let mut stem: usize = file_name.len();
    let mut found: bool = false;
    while at > 1 && !found
        invariant
            at <= file_name@.len(),
            found ==> stem == at && 1 <= at < file_name@.len() && file_name@[at as int] == 46
                && forall|i: int| at < i < file_name@.len() ==> file_name@[i] != 46,
            !found ==> stem == file_name@.len() && forall|i: int|
                at <= i < file_name@.len() && 1 <= i ==> file_name@[i] != 46,
        decreases at,
    {
        at = at - 1;
        if file_name[at] == 46 {
            stem = at;
            found = true;
        }
    }
    proof {
        lemma_stem_len_is(file_name@, stem as int);
        assert(file_stem(file_name@) == file_name@.subrange(0, stem as int));
    }
    if prefix.len() > stem {
        return None;
    }
    let mut i: usize = 0;
    while i < prefix.len()
        invariant
            i <= prefix@.len() <= stem <= file_name@.len(),
            file_stem(file_name@) == file_name@.subrange(0, stem as int),
            file_name@.subrange(0, i as int) == prefix@.subrange(0, i as int),
        decreases prefix@.len() - i,
    {
        if file_name[i] != prefix[i] {
            assert(file_name@.subrange(0, stem as int).subrange(0, prefix@.len() as int)[i as int]
                == file_name@[i as int]);
            return None;
        }
        i = i + 1;
        assert(file_name@.subrange(0, i as int) =~= file_name@.subrange(0, i - 1).push(
            file_name@[i - 1],
        ));
        assert(prefix@.subrange(0, i as int) =~= prefix@.subrange(0, i - 1).push(prefix@[i - 1]));
    }
    proof {
        assert(prefix@.subrange(0, prefix@.len() as int) =~= prefix@);
        assert(file_stem(file_name@).subrange(0, prefix@.len() as int) =~= file_name@.subrange(
            0,
            prefix@.len() as int,
        ));
        assert(file_stem(file_name@).subrange(prefix@.len() as int, stem as int)
            =~= file_name@.subrange(prefix@.len() as int, stem as int));
    }
    parse_usize(slice_subrange(file_name, prefix.len(), stem))
}

/// The id of a table file named `sstable-<id>.<extension>`.
pub fn get_table_id(file_name: &str) -> (id: Option<usize>)
    ensures
        id == id_of(file_name.spec_bytes(), "sstable-".spec_bytes()),
{
    get_id(file_name.as_bytes(), "sstable-".as_bytes())
}

/// The generation of a leaf file named `leaves-<id>.<extension>`.
pub fn get_tree_id(file_name: &str) -> (id: Option<usize>)
    ensures
        id == id_of(file_name.spec_bytes(), "leaves-".spec_bytes()),
{
    get_id(file_name.as_bytes(), "leaves-".as_bytes())
}

} // verus!
