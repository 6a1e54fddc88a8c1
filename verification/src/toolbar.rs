//! Toolbar model: heading level options for a pick list.

use vstd::prelude::*;

verus! {

/// Heading level options for the pick list.
#[derive(Debug, Clone, Copy, PartialEq, Eq)]
pub enum HeadingOption {
    Normal,
    H1,
    H2,
    H3,
    H4,
    H5,
    H6,
}

/// The heading option of an optional heading level: levels 1-6 have their
/// option, anything else is normal text.
pub open spec fn option_of_level(level: Option<u8>) -> HeadingOption {
    match level {
        Some(1) => HeadingOption::H1,
        Some(2) => HeadingOption::H2,
        Some(3) => HeadingOption::H3,
        Some(4) => HeadingOption::H4,
        Some(5) => HeadingOption::H5,
        Some(6) => HeadingOption::H6,
        _ => HeadingOption::Normal,
    }
}

/// The heading level of an option.
pub open spec fn level_of_option(option: HeadingOption) -> Option<u8> {
    match option {
        HeadingOption::Normal => None,
        HeadingOption::H1 => Some(1),
        HeadingOption::H2 => Some(2),
        HeadingOption::H3 => Some(3),
        HeadingOption::H4 => Some(4),
        HeadingOption::H5 => Some(5),
        HeadingOption::H6 => Some(6),
    }
}

/// The label shown for an option.
pub open spec fn label_of_option(option: HeadingOption) -> Seq<char> {
    match option {
        HeadingOption::Normal => "Normal"@,
        HeadingOption::H1 => "Heading 1"@,
        HeadingOption::H2 => "Heading 2"@,
        HeadingOption::H3 => "Heading 3"@,
        HeadingOption::H4 => "Heading 4"@,
        HeadingOption::H5 => "Heading 5"@,
        HeadingOption::H6 => "Heading 6"@,
    }
}

impl HeadingOption {
    /// All heading options for populating a pick list.
    pub const ALL: [HeadingOption; 7] = [
        HeadingOption::Normal,
        HeadingOption::H1,
        HeadingOption::H2,
        HeadingOption::H3,
        HeadingOption::H4,
        HeadingOption::H5,
        HeadingOption::H6,
    ];

    /// Convert from an optional heading level (as stored in the document).
    pub fn from_level(level: Option<u8>) -> (option: Self)
        ensures
            option == option_of_level(level),
    {
        match level {
            None => Self::Normal,
            Some(1) => Self::H1,
            Some(2) => Self::H2,
            Some(3) => Self::H3,
            Some(4) => Self::H4,
            Some(5) => Self::H5,
            Some(6) => Self::H6,
            Some(_) => Self::Normal,
        }
    }

    /// Convert to an optional heading level.
    pub fn to_level(self) -> (level: Option<u8>)
        ensures
            level == level_of_option(self),
    {
        match self {
            Self::Normal => None,
            Self::H1 => Some(1),
            Self::H2 => Some(2),
            Self::H3 => Some(3),
            Self::H4 => Some(4),
            Self::H5 => Some(5),
            Self::H6 => Some(6),
        }
    }

    /// The label shown in the pick list ("Normal", "Heading 1", ...).
    pub fn to_string(&self) -> (label: String)
        ensures
            label@ == label_of_option(*self),
    {
        match self {
            Self::Normal => "Normal".to_owned(),
            Self::H1 => "Heading 1".to_owned(),
            Self::H2 => "Heading 2".to_owned(),
            Self::H3 => "Heading 3".to_owned(),
            Self::H4 => "Heading 4".to_owned(),
            Self::H5 => "Heading 5".to_owned(),
            Self::H6 => "Heading 6".to_owned(),
        }
    }
}

/// Every option survives a round trip through its heading level.
pub proof fn lemma_option_level_round_trip(option: HeadingOption)
    ensures
        option_of_level(level_of_option(option)) == option,
{
}

/// A heading level survives a round trip through its option exactly when it
/// is absent or between 1 and 6.
pub proof fn lemma_level_option_round_trip(level: Option<u8>)
    ensures
        level_of_option(option_of_level(level)) == level <==> (level matches Some(l) ==> 1 <= l
            <= 6),
{
}

/// The decimal digit of a number below ten.
pub open spec fn digit_char(d: int) -> char {
    (48 + d) as char
}

/// Every option is labelled by the level it stands for: a heading option
/// reads "Heading " and its level's digit, the option without a level reads
/// "Normal"; and the option picked for a level 1-6 reads that level.
pub proof fn lemma_label_names_level(option: HeadingOption, level: u8)
    ensures
        level_of_option(option) matches Some(l) ==> label_of_option(option) == "Heading "@ + seq![
            digit_char(l as int),
        ],
        level_of_option(option) is None <==> label_of_option(option) == "Normal"@,
        1 <= level <= 6 ==> label_of_option(option_of_level(Some(level))) == "Heading "@ + seq![
            digit_char(level as int),
        ],
{
    reveal_strlit("Heading ");
    reveal_strlit("Normal");
    reveal_strlit("Heading 1");
    reveal_strlit("Heading 2");
    reveal_strlit("Heading 3");
    reveal_strlit("Heading 4");
    reveal_strlit("Heading 5");
    reveal_strlit("Heading 6");
    assert("Heading 1"@ =~= "Heading "@ + seq![digit_char(1)]);
    assert("Heading 2"@ =~= "Heading "@ + seq![digit_char(2)]);
    assert("Heading 3"@ =~= "Heading "@ + seq![digit_char(3)]);
    assert("Heading 4"@ =~= "Heading "@ + seq![digit_char(4)]);
    assert("Heading 5"@ =~= "Heading "@ + seq![digit_char(5)]);
    assert("Heading 6"@ =~= "Heading "@ + seq![digit_char(6)]);
    assert("Normal"@.len() != ("Heading "@ + seq![digit_char(1)]).len());
}

} // verus!
