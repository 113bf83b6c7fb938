//! Model configuration, as a tree of plain values.
use vstd::prelude::*;
use vstd::string::*;

verus! {

/// A value of a model configuration file.
pub enum ConfigValue {
    Null,
    Bool(bool),
    /// An integer that is not negative.
    Unsigned(u64),
    /// A negative integer.
    Negative(i64),
    /// A number with a fraction or an exponent, by the bits of its double precision datum.
    Fraction(u64),
    Text(String),
    List(Vec<ConfigValue>),
    Object(Vec<ConfigEntry>),
}

/// A named member of an object.
pub struct ConfigEntry {
    pub name: String,
    pub value: ConfigValue,
}

/// The first member with that name, from position `i` on.
pub open spec fn entry_from(entries: Seq<ConfigEntry>, key: Seq<char>, i: int) -> Option<
    ConfigValue,
>
    decreases entries.len() - i,
{
    if i < 0 || i >= entries.len() {
        None
    } else if entries[i].name@ == key {
        Some(entries[i].value)
    } else {
        entry_from(entries, key, i + 1)
    }
}

/// The texts of a path.
pub open spec fn path_texts(path: Seq<&str>) -> Seq<Seq<char>> {
    path.map_values(|s: &str| s@)
}

impl ConfigValue {
    /// The member of an object with that name; nothing else has members.
    pub open spec fn member(self, key: Seq<char>) -> Option<ConfigValue> {
        match self {
            ConfigValue::Object(entries) => entry_from(entries@, key, 0),
            _ => None,
        }
    }

    /// The value at the end of a path of member names.
    pub open spec fn descendant(self, path: Seq<Seq<char>>) -> Option<ConfigValue>
        decreases path.len(),
    {
        if path.len() == 0 {
            Some(self)
        } else {
            match self.member(path[0]) {
                Some(value) => value.descendant(path.drop_first()),
                None => None,
            }
        }
    }

    /// The unsigned integer that a value is, if it is one.
    pub open spec fn unsigned(self) -> Option<u64> {
        match self {
            ConfigValue::Unsigned(n) => Some(n),
            _ => None,
        }
    }

    /// The text that a value is, if it is one.
    pub open spec fn text(self) -> Option<Seq<char>> {
        match self {
            ConfigValue::Text(s) => Some(s@),
            _ => None,
        }
    }

    /// The member of an object with that name.
    pub fn get(&self, key: &str) -> (r: Option<&ConfigValue>)
        ensures
            match r {
                Some(value) => self.member(key@) == Some(*value),
                None => self.member(key@) is None,
            },
    {
        match self {
            ConfigValue::Object(entries) => {
                let wanted = String::from_str(key);
                let mut i: usize = 0;
                while i < entries.len()
                    invariant
                        i <= entries.len(),
                        wanted@ == key@,
                        self.member(key@) == entry_from(entries@, key@, i as int),
                    decreases entries.len() - i,
                {
                    if entries[i].name == wanted {
                        return Some(&entries[i].value);
                    }
                    i = i + 1;
                }
                None
            },
            _ => None,
        }
    }

    /// The value at the end of a path of member names.
    pub fn find(&self, path: &[&str]) -> (r: Option<&ConfigValue>)
        ensures
            match r {
                Some(value) => self.descendant(path_texts(path@)) == Some(*value),
                None => self.descendant(path_texts(path@)) is None,
            },
    {
        let mut current = self;
        let mut i: usize = 0;
        proof {
            assert(path_texts(path@).skip(0) =~= path_texts(path@));
        }
        while i < path.len()
            invariant
                i <= path.len(),
                self.descendant(path_texts(path@)) == current.descendant(
                    path_texts(path@).skip(i as int),
                ),
            decreases path.len() - i,
        {
            let ghost rest = path_texts(path@).skip(i as int);
            proof {
                assert(rest[0] == path@[i as int]@);
                assert(rest.drop_first() =~= path_texts(path@).skip(i + 1));
            }
            match current.get(path[i]) {
                Some(value) => {
                    current = value;
                },
                None => {
                    return None;
                },
            }
            i = i + 1;
        }
        proof {
            assert(path_texts(path@).skip(path@.len() as int).len() == 0);
        }
        Some(current)
    }

    /// The unsigned integer that the value is, if it is one.
    pub fn as_u64(&self) -> (r: Option<u64>)
        ensures
            r == self.unsigned(),
    {
        match self {
            ConfigValue::Unsigned(n) => Some(*n),
            _ => None,
        }
    }

    /// The text that the value is, if it is one.
    pub fn as_str(&self) -> (r: Option<&str>)
        ensures
            match r {
                Some(s) => self.text() == Some(s@),
                None => self.text() is None,
            },
    {
        match self {
            ConfigValue::Text(s) => Some(s.as_str()),
            _ => None,
        }
    }
}

} // verus!
