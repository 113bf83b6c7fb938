//! What looking into texts and configurations finds.
use crate::config::{ConfigEntry, ConfigValue};
use crate::registry;
use crate::text;
use vstd::prelude::*;
use vstd::string::*;

verus! {

/// Whether a text is some text, then `part`, then some text.
pub open spec fn holds(s: Seq<char>, part: Seq<char>) -> bool {
    exists|before: Seq<char>, after: Seq<char>| s == #[trigger] (before + part + after)
}

/// The number that decimal digits write, read from the left.
pub open spec fn read_decimal(s: Seq<char>) -> nat
    decreases s.len(),
{
    if s.len() == 0 {
        0
    } else {
        (10 * read_decimal(s.drop_last()) + (s.last() as u32 - '0' as u32)) as nat
    }
}

/// Whether the first member of an object with some name has some value.
pub open spec fn first_member(config: ConfigValue, name: Seq<char>, value: ConfigValue) -> bool {
    config matches ConfigValue::Object(entries) && exists|i: int|
        {
            &&& 0 <= i < entries.len()
            &&& (#[trigger] entries[i]).name@ == name
            &&& entries[i].value == value
            &&& forall|j: int| 0 <= j < i ==> (#[trigger] entries[j]).name@ != name
        }
}

/// Whether the first member of an object with some name has a first member with another name, of
/// some value.
pub open spec fn first_nested(
    config: ConfigValue,
    outer: Seq<char>,
    inner: Seq<char>,
    value: ConfigValue,
) -> bool {
    exists|object: ConfigValue| #[trigger]
        first_member(config, outer, object) && first_member(object, inner, value)
}

/// Whether the first member `model_type` of an object is some text.
pub open spec fn states_type(config: ConfigValue, name: Seq<char>) -> bool {
    exists|s: String|
        s@ == name && #[trigger] first_member(config, "model_type"@, ConfigValue::Text(s))
}

/// Whether a text is another one with each ASCII capital replaced by the letter that is thirty-two
/// characters on.
pub open spec fn is_lower_case_of(lower: Seq<char>, s: Seq<char>) -> bool {
    &&& lower.len() == s.len()
    &&& forall|i: int|
        0 <= i < s.len() ==> #[trigger] lower[i] == (if 'A' <= s[i] && s[i] <= 'Z' {
            (s[i] as u32 + 32) as char
        } else {
            s[i]
        })
}

/// Lower case changes nothing but ASCII capitals, and each of them to the letter that is
/// thirty-two characters on.
pub proof fn law_lower_case_of_each_character(s: Seq<char>, i: int)
    requires
        0 <= i < s.len(),
    ensures
        text::ascii_lowercase(s).len() == s.len(),
        'A' <= s[i] && s[i] <= 'Z' ==> text::ascii_lowercase(s)[i] as u32 == s[i] as u32 + 32,
        !('A' <= s[i] && s[i] <= 'Z') ==> text::ascii_lowercase(s)[i] == s[i],
{
}

/// A text occurs in another one exactly where that one is some text, then it, then some text.
pub proof fn law_occurrences_split_a_text(s: Seq<char>, part: Seq<char>)
    ensures
        text::contains_text(s, part) <==> holds(s, part),
{
    if text::contains_text(s, part) {
        let i = choose|i: int| text::occurs_at(s, part, i);
        let before = s.take(i);
        let after = s.skip(i + part.len());
        assert(s =~= before + part + after) by {
            assert(s.subrange(i, i + part.len()) =~= part);
            assert forall|k: int| 0 <= k < part.len() implies s[i + k] == #[trigger] part[k] by {
                assert(s.subrange(i, i + part.len())[k] == s[i + k]);
            }
        }
    }
    if holds(s, part) {
        let (before, after) = choose|before: Seq<char>, after: Seq<char>|
            s == #[trigger] (before + part + after);
        assert(s.subrange(before.len() as int, (before.len() + part.len()) as int) =~= part);
        assert(text::occurs_at(s, part, before.len() as int));
    }
}

/// The decimal form of a number reads as that number, is made of digits alone, and starts with a
/// zero only where the number is zero.
pub proof fn law_decimal_form_reads_back(n: nat)
    ensures
        read_decimal(text::decimal_digits(n)) == n,
        text::decimal_digits(n).len() > 0,
        forall|i: int|
            0 <= i < text::decimal_digits(n).len() ==> '0' <= #[trigger] text::decimal_digits(n)[i]
                && text::decimal_digits(n)[i] <= '9',
        text::decimal_digits(n)[0] == '0' <==> n == 0,
        n < 10 ==> text::decimal_digits(n).len() == 1,
    decreases n,
{
    let s = text::decimal_digits(n);
    if n < 10 {
        assert(s.drop_last() =~= Seq::empty());
        assert(read_decimal(s.drop_last()) == 0);
    } else {
        let head = text::decimal_digits(n / 10);
        law_decimal_form_reads_back(n / 10);
        assert(s.drop_last() =~= head);
        assert(s[0] == head[0]);
        assert forall|i: int| 0 <= i < s.len() implies '0' <= #[trigger] s[i] && s[i] <= '9' by {
            if i < head.len() {
                assert(s[i] == head[i]);
            }
        }
    }
}

/// A search from some position on finds the first member with the name that is there.
proof fn lemma_entry_from(entries: Seq<ConfigEntry>, key: Seq<char>, i: int, k: int)
    requires
        0 <= i <= k <= entries.len(),
        forall|j: int| i <= j < k ==> (#[trigger] entries[j]).name@ != key,
        k < entries.len() ==> entries[k].name@ == key,
    ensures
        crate::config::entry_from(entries, key, i) == (if k < entries.len() {
            Some(entries[k].value)
        } else {
            None
        }),
    decreases k - i,
{
    if i < k {
        lemma_entry_from(entries, key, i + 1, k);
    }
}

/// Among members, there is a first one with a name, or none.
proof fn lemma_first_entry(entries: Seq<ConfigEntry>, key: Seq<char>, i: int) -> (k: int)
    requires
        0 <= i <= entries.len(),
    ensures
        i <= k <= entries.len(),
        forall|j: int| i <= j < k ==> (#[trigger] entries[j]).name@ != key,
        k < entries.len() ==> entries[k].name@ == key,
    decreases entries.len() - i,
{
    if i == entries.len() || entries[i].name@ == key {
        i
    } else {
        lemma_first_entry(entries, key, i + 1)
    }
}

/// Looking a name up gives the value of the first member with it, and nothing where an object has
/// no such member or the value is no object.
pub proof fn law_first_member_is_found(config: ConfigValue, name: Seq<char>, value: ConfigValue)
    ensures
        config.member(name) == Some(value) <==> first_member(config, name, value),
        config.member(name) is None <==> forall|v: ConfigValue| !first_member(config, name, v),
{
    if let ConfigValue::Object(entries) = config {
        let k = lemma_first_entry(entries@, name, 0);
        lemma_entry_from(entries@, name, 0, k);
        if k < entries@.len() {
            assert(first_member(config, name, entries@[k].value)) by {
                assert(entries[k].name@ == name);
            }
        }
        assert forall|v: ConfigValue| first_member(config, name, v) implies config.member(name)
            == Some(v) by {
            let i = choose|i: int|
                {
                    &&& 0 <= i < entries.len()
                    &&& (#[trigger] entries[i]).name@ == name
                    &&& entries[i].value == v
                    &&& forall|j: int| 0 <= j < i ==> (#[trigger] entries[j]).name@ != name
                };
            lemma_entry_from(entries@, name, 0, i);
        }
    } else {
        assert(forall|v: ConfigValue| !first_member(config, name, v));
    }
}

/// A path leads from the value itself, through the first member with each of its names in turn.
pub proof fn law_paths_lead_through_members(
    config: ConfigValue,
    name: Seq<char>,
    rest: Seq<Seq<char>>,
    value: ConfigValue,
)
    ensures
        config.descendant(Seq::empty()) == Some(config),
        first_member(config, name, value) ==> config.descendant(seq![name] + rest)
            == value.descendant(rest),
        (forall|v: ConfigValue| !first_member(config, name, v)) ==> config.descendant(
            seq![name] + rest,
        ) is None,
{
    let path = seq![name] + rest;
    assert(path[0] == name);
    assert(path.drop_first() =~= rest);
    law_first_member_is_found(config, name, value);
}

/// An integer is read from a field exactly where the first member with its name is an unsigned
/// integer of thirty-two bits, whatever the other members are.
pub proof fn law_fields_are_read(config: ConfigValue, name: Seq<char>, n: u32)
    ensures
        registry::config_field(config, seq![name]) == Some(n) <==> first_member(
            config,
            name,
            ConfigValue::Unsigned(n as u64),
        ),
{
    let value = ConfigValue::Unsigned(n as u64);
    law_first_member_is_found(config, name, value);
    assert(seq![name].drop_first() =~= Seq::<Seq<char>>::empty());
    match config.member(name) {
        Some(v) => {
            assert(config.descendant(seq![name]) == v.descendant(seq![name].drop_first()));
            assert(v.descendant(Seq::<Seq<char>>::empty()) == Some(v));
            assert(config.descendant(seq![name]) == Some(v));
        },
        None => {},
    }
}

/// An integer is read from a field of a field exactly where each of them is there.
pub proof fn law_nested_fields_are_read(
    config: ConfigValue,
    outer: Seq<char>,
    inner: Seq<char>,
    n: u32,
)
    ensures
        registry::config_field(config, seq![outer, inner]) == Some(n) <==> first_nested(
            config,
            outer,
            inner,
            ConfigValue::Unsigned(n as u64),
        ),
{
    let path = seq![outer, inner];
    assert(path.drop_first() =~= seq![inner]);
    match config.member(outer) {
        Some(object) => {
            law_first_member_is_found(config, outer, object);
            law_fields_are_read(object, inner, n);
            assert(config.descendant(path) == object.descendant(seq![inner]));
            assert forall|other: ConfigValue| #[trigger]
                first_member(config, outer, other) implies other == object by {
                law_first_member_is_found(config, outer, other);
            }
        },
        None => {
            law_first_member_is_found(config, outer, config);
        },
    }
}

/// The type of a model is the text of the first member `model_type`, where that is a text.
pub proof fn law_model_type_is_stated(config: ConfigValue, name: Seq<char>)
    ensures
        registry::model_type(config) == Some(name) <==> states_type(config, name),
{
    match config.member("model_type"@) {
        Some(value) => {
            law_first_member_is_found(config, "model_type"@, value);
            assert forall|s: String| #[trigger]
                first_member(config, "model_type"@, ConfigValue::Text(s)) implies value
                == ConfigValue::Text(s) by {
                law_first_member_is_found(config, "model_type"@, ConfigValue::Text(s));
            }
        },
        None => {
            law_first_member_is_found(config, "model_type"@, config);
        },
    }
}

/// A value is read as an integer or as a text exactly where it is one.
pub proof fn law_values_are_read_as_they_are(value: ConfigValue, n: u64, s: String)
    ensures
        value.unsigned() == Some(n) <==> value == ConfigValue::Unsigned(n),
        value == ConfigValue::Text(s) ==> value.text() == Some(s@),
        value.text() is Some <==> value is Text,
{
}

/// The texts of a path are those of its steps, in their order.
pub proof fn law_path_texts_are_its_steps(path: Seq<&str>, i: int)
    requires
        0 <= i < path.len(),
    ensures
        crate::config::path_texts(path).len() == path.len(),
        crate::config::path_texts(path)[i] == path[i]@,
{
}

} // verus!
