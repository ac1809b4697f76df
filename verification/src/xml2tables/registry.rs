//! The document types whose tables are known.
use vstd::prelude::*;

use crate::text::same_str;

verus! {

/// The document types whose tables are known.
pub const DOCUMENT_TYPES: [&'static str; 100] = [
    "INFORMATION TABLE",
    "QUALIF",
    "EFFECT",
    "25-NSE",
    "25-NSE/A",
    "C-TR",
    "C-TR-W",
    "X-17A-5",
    "X-17A-5/A",
    "1-K",
    "1-K/A",
    "D",
    "D/A",
    "N-PX",
    "N-PX/A",
    "144",
    "144/A",
    "SCHEDULE 13D",
    "SCHEDULE 13D/A",
    "SCHEDULE 13G",
    "SCHEDULE 13G/A",
    "1-Z",
    "1-Z/A",
    "1-A",
    "1-A/A",
    "1-A POS",
    "DOS",
    "DOS/A",
    "13F-HR",
    "13F-HR/A",
    "13F-NT",
    "13F-NT/A",
    "PROXY VOTING RECORD",
    "COVER PAGE",
    "N-CR",
    "24F-2NT",
    "24F-2NT/A",
    "SH-ER",
    "SDR",
    "SDR/A",
    "CFPORTAL",
    "CFPORTAL/A",
    "CFPORTAL-W",
    "EX-103",
    "EX-102",
    "4",
    "4/A",
    "3",
    "3/A",
    "5",
    "5/A",
    "MA-I",
    "MA-I/A",
    "NPORT-P",
    "NPORT-P/A",
    "TA-2",
    "TA-2/A",
    "N-MFP2",
    "N-MFP2/A",
    "C-U",
    "C-U-W",
    "TA-1",
    "TA-1/A",
    "N-CEN",
    "N-CEN/A",
    "N-MFP",
    "N-MFP/A",
    "MA",
    "MA/A",
    "C/A",
    "C/A-W",
    "MA-A",
    "MA-W",
    "N-MFP1",
    "N-MFP1/A",
    "C-W",
    "C-AR/A",
    "C-AR-W",
    "C",
    "N-MFP3",
    "N-MFP3/A",
    "TA-W",
    "ATS-N/UA",
    "ATS-N-W",
    "ATS-N-C",
    "ATS-N/OFA",
    "ATS-N/CA",
    "ATS-N/MA",
    "C-AR",
    "SBSE-C",
    "SBSE",
    "SBSE/A",
    "SBSE-A",
    "SBSE-A/A",
    "SBSE-BD",
    "SBSE-BD/A",
    "SBSE-W",
    "SBSEF",
    "SBSEF/A",
    "SBSEF-W",
];

/// For each of these types, the file of the mapping that makes its tables.
pub const MAPPING_FILES: [&'static str; 100] = [
    "informationtable.json",
    "qualif.json",
    "effect.json",
    "25nse.json",
    "25nse.json",
    "ctr.json",
    "ctr.json",
    "x17a5.json",
    "x17a5.json",
    "1k.json",
    "1k.json",
    "d.json",
    "d.json",
    "npx.json",
    "npx.json",
    "144.json",
    "144.json",
    "schedule13d.json",
    "schedule13d.json",
    "schedule13g.json",
    "schedule13g.json",
    "1z.json",
    "1z.json",
    "1a.json",
    "1a.json",
    "1a.json",
    "dos.json",
    "dos.json",
    "13fhr.json",
    "13fhr.json",
    "13fhr.json",
    "13fhr.json",
    "proxyvotingrecord.json",
    "coverpage.json",
    "ncr.json",
    "24f2nt.json",
    "24f2nt.json",
    "sher.json",
    "sdr.json",
    "sdr.json",
    "cfportal.json",
    "cfportal.json",
    "cfportal.json",
    "ex103.json",
    "ex102.json",
    "345.json",
    "345.json",
    "345.json",
    "345.json",
    "345.json",
    "345.json",
    "mai.json",
    "mai.json",
    "nportp.json",
    "nportp.json",
    "ta2.json",
    "ta2.json",
    "nmfp12.json",
    "nmfp12.json",
    "c.json",
    "c.json",
    "ta1.json",
    "ta1.json",
    "ncen.json",
    "ncen.json",
    "nmfp.json",
    "nmfp.json",
    "ma.json",
    "ma.json",
    "c.json",
    "c.json",
    "ma.json",
    "maw.json",
    "nmfp12.json",
    "nmfp12.json",
    "c.json",
    "c.json",
    "c.json",
    "c.json",
    "nmfp3.json",
    "nmfp3.json",
    "taw.json",
    "atsn_ua.json",
    "atsn_ua.json",
    "atsn_ua.json",
    "atsn_ua.json",
    "atsn_ua.json",
    "atsn_ua.json",
    "c.json",
    "sbsec.json",
    "sbsec.json",
    "sbsec.json",
    "sbsec.json",
    "sbsec.json",
    "sbsec.json",
    "sbsec.json",
    "sbsec.json",
    "sbsec.json",
    "sbsec.json",
    "sbsec.json",
];

/// The mapping of the first of the known types, from the `i`-th on, that is the given one.
pub open spec fn mapping_from(document_type: Seq<char>, i: int) -> Option<Seq<char>>
    decreases 100 - i,
{
    if i >= 100 {
        None
    } else if DOCUMENT_TYPES@[i]@ == document_type {
        Some(MAPPING_FILES@[i]@)
    } else {
        mapping_from(document_type, i + 1)
    }
}

/// The mapping of a document type.
pub open spec fn mapping_of(document_type: Seq<char>) -> Option<Seq<char>> {
    mapping_from(document_type, 0)
}

pub open spec fn is_supported(document_type: Seq<char>) -> bool {
    exists|i: int| 0 <= i < 100 && (#[trigger] DOCUMENT_TYPES@[i])@ == document_type
}

proof fn lemma_mapping_from(document_type: Seq<char>, i: int)
    requires
        0 <= i <= 100,
    ensures
        mapping_from(document_type, i) is Some <==> exists|k: int|
            i <= k < 100 && (#[trigger] DOCUMENT_TYPES@[k])@ == document_type,
    decreases 100 - i,
{
    if i < 100 {
        lemma_mapping_from(document_type, i + 1);
        if DOCUMENT_TYPES@[i]@ != document_type && mapping_from(document_type, i + 1) is Some {
            let k = choose|k: int|
                i + 1 <= k < 100 && (#[trigger] DOCUMENT_TYPES@[k])@ == document_type;
            assert(i <= k);
        }
    }
}

/// A document type is supported if and only if there is a mapping for it.
pub proof fn law_supported_types_have_mappings(document_type: Seq<char>)
    ensures
        is_supported(document_type) <==> mapping_of(document_type) is Some,
{
    lemma_mapping_from(document_type, 0);
}

/// The character at a place; a slash where the text has ended.
spec fn letter(s: Seq<char>, i: int) -> char {
    if 0 <= i < s.len() {
        s[i]
    } else {
        '/'
    }
}

/// The mapping of a known type, told by its letters. No letter that matters stands behind the name
/// of a form, so that an amendment, which has a slash there, is told as its form is.
spec fn mapping_by_letters(s: Seq<char>) -> Seq<char> {
    if letter(s, 0) == '1' {
        if letter(s, 1) == '-' {
            if letter(s, 2) == 'A' {
                "1a.json"@
            } else if letter(s, 2) == 'K' {
                "1k.json"@
            } else {
                "1z.json"@
            }
        } else if letter(s, 1) == '3' {
            "13fhr.json"@
        } else {
            "144.json"@
        }
    } else if letter(s, 0) == '2' {
        if letter(s, 1) == '4' {
            "24f2nt.json"@
        } else {
            "25nse.json"@
        }
    } else if letter(s, 0) == '3' || letter(s, 0) == '4' || letter(s, 0) == '5' {
        "345.json"@
    } else if letter(s, 0) == 'A' {
        "atsn_ua.json"@
    } else if letter(s, 0) == 'C' {
        if letter(s, 1) == '-' {
            if letter(s, 2) == 'A' || letter(s, 2) == 'U' || letter(s, 2) == 'W' {
                "c.json"@
            } else {
                "ctr.json"@
            }
        } else if letter(s, 1) == 'F' {
            "cfportal.json"@
        } else if letter(s, 1) == 'O' {
            "coverpage.json"@
        } else {
            "c.json"@
        }
    } else if letter(s, 0) == 'D' {
        if letter(s, 1) == 'O' {
            "dos.json"@
        } else {
            "d.json"@
        }
    } else if letter(s, 0) == 'E' {
        if letter(s, 1) == 'F' {
            "effect.json"@
        } else if letter(s, 5) == '2' {
            "ex102.json"@
        } else {
            "ex103.json"@
        }
    } else if letter(s, 0) == 'I' {
        "informationtable.json"@
    } else if letter(s, 0) == 'M' {
        if letter(s, 2) == '-' {
            if letter(s, 3) == 'A' {
                "ma.json"@
            } else if letter(s, 3) == 'I' {
                "mai.json"@
            } else {
                "maw.json"@
            }
        } else {
            "ma.json"@
        }
    } else if letter(s, 0) == 'N' {
        if letter(s, 1) == '-' {
            if letter(s, 2) == 'C' {
                if letter(s, 3) == 'E' {
                    "ncen.json"@
                } else {
                    "ncr.json"@
                }
            } else if letter(s, 2) == 'M' {
                if letter(s, 5) == '1' || letter(s, 5) == '2' {
                    "nmfp12.json"@
                } else if letter(s, 5) == '3' {
                    "nmfp3.json"@
                } else {
                    "nmfp.json"@
                }
            } else {
                "npx.json"@
            }
        } else {
            "nportp.json"@
        }
    } else if letter(s, 0) == 'P' {
        "proxyvotingrecord.json"@
    } else if letter(s, 0) == 'Q' {
        "qualif.json"@
    } else if letter(s, 0) == 'S' {
        if letter(s, 1) == 'B' {
            "sbsec.json"@
        } else if letter(s, 1) == 'C' {
            if letter(s, 11) == 'D' {
                "schedule13d.json"@
            } else {
                "schedule13g.json"@
            }
        } else if letter(s, 1) == 'D' {
            "sdr.json"@
        } else {
            "sher.json"@
        }
    } else if letter(s, 0) == 'T' {
        if letter(s, 3) == '1' {
            "ta1.json"@
        } else if letter(s, 3) == '2' {
            "ta2.json"@
        } else {
            "taw.json"@
        }
    } else if letter(s, 0) == 'X' {
        "x17a5.json"@
    } else {
        Seq::empty()
    }
}

/// The letters of each known type tell its mapping.
proof fn lemma_letters_tell(k: int)
    requires
        0 <= k < 100,
    ensures
        mapping_by_letters(DOCUMENT_TYPES@[k]@) == MAPPING_FILES@[k]@,
{
    if k == 0 {
        reveal_strlit("INFORMATION TABLE");
    } else if k == 1 {
        reveal_strlit("QUALIF");
    } else if k == 2 {
        reveal_strlit("EFFECT");
    } else if k == 3 {
        reveal_strlit("25-NSE");
    } else if k == 4 {
        reveal_strlit("25-NSE/A");
    } else if k == 5 {
        reveal_strlit("C-TR");
    } else if k == 6 {
        reveal_strlit("C-TR-W");
    } else if k == 7 {
        reveal_strlit("X-17A-5");
    } else if k == 8 {
        reveal_strlit("X-17A-5/A");
    } else if k == 9 {
        reveal_strlit("1-K");
    } else if k == 10 {
        reveal_strlit("1-K/A");
    } else if k == 11 {
        reveal_strlit("D");
    } else if k == 12 {
        reveal_strlit("D/A");
    } else if k == 13 {
        reveal_strlit("N-PX");
    } else if k == 14 {
        reveal_strlit("N-PX/A");
    } else if k == 15 {
        reveal_strlit("144");
    } else if k == 16 {
        reveal_strlit("144/A");
    } else if k == 17 {
        reveal_strlit("SCHEDULE 13D");
    } else if k == 18 {
        reveal_strlit("SCHEDULE 13D/A");
    } else if k == 19 {
        reveal_strlit("SCHEDULE 13G");
    } else if k == 20 {
        reveal_strlit("SCHEDULE 13G/A");
    } else if k == 21 {
        reveal_strlit("1-Z");
    } else if k == 22 {
        reveal_strlit("1-Z/A");
    } else if k == 23 {
        reveal_strlit("1-A");
    } else if k == 24 {
        reveal_strlit("1-A/A");
    } else if k == 25 {
        reveal_strlit("1-A POS");
    } else if k == 26 {
        reveal_strlit("DOS");
    } else if k == 27 {
        reveal_strlit("DOS/A");
    } else if k == 28 {
        reveal_strlit("13F-HR");
    } else if k == 29 {
        reveal_strlit("13F-HR/A");
    } else if k == 30 {
        reveal_strlit("13F-NT");
    } else if k == 31 {
        reveal_strlit("13F-NT/A");
    } else if k == 32 {
        reveal_strlit("PROXY VOTING RECORD");
    } else if k == 33 {
        reveal_strlit("COVER PAGE");
    } else if k == 34 {
        reveal_strlit("N-CR");
    } else if k == 35 {
        reveal_strlit("24F-2NT");
    } else if k == 36 {
        reveal_strlit("24F-2NT/A");
    } else if k == 37 {
        reveal_strlit("SH-ER");
    } else if k == 38 {
        reveal_strlit("SDR");
    } else if k == 39 {
        reveal_strlit("SDR/A");
    } else if k == 40 {
        reveal_strlit("CFPORTAL");
    } else if k == 41 {
        reveal_strlit("CFPORTAL/A");
    } else if k == 42 {
        reveal_strlit("CFPORTAL-W");
    } else if k == 43 {
        reveal_strlit("EX-103");
    } else if k == 44 {
        reveal_strlit("EX-102");
    } else if k == 45 {
        reveal_strlit("4");
    } else if k == 46 {
        reveal_strlit("4/A");
    } else if k == 47 {
        reveal_strlit("3");
    } else if k == 48 {
        reveal_strlit("3/A");
    } else if k == 49 {
        reveal_strlit("5");
    } else if k == 50 {
        reveal_strlit("5/A");
    } else if k == 51 {
        reveal_strlit("MA-I");
    } else if k == 52 {
        reveal_strlit("MA-I/A");
    } else if k == 53 {
        reveal_strlit("NPORT-P");
    } else if k == 54 {
        reveal_strlit("NPORT-P/A");
    } else if k == 55 {
        reveal_strlit("TA-2");
    } else if k == 56 {
        reveal_strlit("TA-2/A");
    } else if k == 57 {
        reveal_strlit("N-MFP2");
    } else if k == 58 {
        reveal_strlit("N-MFP2/A");
    } else if k == 59 {
        reveal_strlit("C-U");
    } else if k == 60 {
        reveal_strlit("C-U-W");
    } else if k == 61 {
        reveal_strlit("TA-1");
    } else if k == 62 {
        reveal_strlit("TA-1/A");
    } else if k == 63 {
        reveal_strlit("N-CEN");
    } else if k == 64 {
        reveal_strlit("N-CEN/A");
    } else if k == 65 {
        reveal_strlit("N-MFP");
    } else if k == 66 {
        reveal_strlit("N-MFP/A");
    } else if k == 67 {
        reveal_strlit("MA");
    } else if k == 68 {
        reveal_strlit("MA/A");
    } else if k == 69 {
        reveal_strlit("C/A");
    } else if k == 70 {
        reveal_strlit("C/A-W");
    } else if k == 71 {
        reveal_strlit("MA-A");
    } else if k == 72 {
        reveal_strlit("MA-W");
    } else if k == 73 {
        reveal_strlit("N-MFP1");
    } else if k == 74 {
        reveal_strlit("N-MFP1/A");
    } else if k == 75 {
        reveal_strlit("C-W");
    } else if k == 76 {
        reveal_strlit("C-AR/A");
    } else if k == 77 {
        reveal_strlit("C-AR-W");
    } else if k == 78 {
        reveal_strlit("C");
    } else if k == 79 {
        reveal_strlit("N-MFP3");
    } else if k == 80 {
        reveal_strlit("N-MFP3/A");
    } else if k == 81 {
        reveal_strlit("TA-W");
    } else if k == 82 {
        reveal_strlit("ATS-N/UA");
    } else if k == 83 {
        reveal_strlit("ATS-N-W");
    } else if k == 84 {
        reveal_strlit("ATS-N-C");
    } else if k == 85 {
        reveal_strlit("ATS-N/OFA");
    } else if k == 86 {
        reveal_strlit("ATS-N/CA");
    } else if k == 87 {
        reveal_strlit("ATS-N/MA");
    } else if k == 88 {
        reveal_strlit("C-AR");
    } else if k == 89 {
        reveal_strlit("SBSE-C");
    } else if k == 90 {
        reveal_strlit("SBSE");
    } else if k == 91 {
        reveal_strlit("SBSE/A");
    } else if k == 92 {
        reveal_strlit("SBSE-A");
    } else if k == 93 {
        reveal_strlit("SBSE-A/A");
    } else if k == 94 {
        reveal_strlit("SBSE-BD");
    } else if k == 95 {
        reveal_strlit("SBSE-BD/A");
    } else if k == 96 {
        reveal_strlit("SBSE-W");
    } else if k == 97 {
        reveal_strlit("SBSEF");
    } else if k == 98 {
        reveal_strlit("SBSEF/A");
    } else {
        reveal_strlit("SBSEF-W");
    }
}

/// The mapping of a known type stands beside the type.
proof fn lemma_mapping_at(document_type: Seq<char>, i: int)
    requires
        0 <= i <= 100,
    ensures
        mapping_from(document_type, i) matches Some(file) ==> exists|k: int|
            i <= k < 100 && (#[trigger] DOCUMENT_TYPES@[k])@ == document_type
                && MAPPING_FILES@[k]@ == file,
    decreases 100 - i,
{
    if i < 100 {
        lemma_mapping_at(document_type, i + 1);
    }
}

/// The letters of a known type tell the mapping that is found for it.
proof fn lemma_mapping_is_told(document_type: Seq<char>)
    requires
        is_supported(document_type),
    ensures
        mapping_of(document_type) == Some(mapping_by_letters(document_type)),
{
    law_supported_types_have_mappings(document_type);
    lemma_mapping_at(document_type, 0);
    let k = choose|k: int|
        0 <= k < 100 && (#[trigger] DOCUMENT_TYPES@[k])@ == document_type && MAPPING_FILES@[k]@
            == mapping_of(document_type)->Some_0;
    lemma_letters_tell(k);
}

/// An amendment is read with the mapping of the form that it amends.
pub proof fn law_amendments_share_mappings(form: Seq<char>)
    requires
        is_supported(form),
        is_supported(form + "/A"@),
    ensures
        mapping_of(form + "/A"@) == mapping_of(form),
{
    reveal_strlit("/A");
    assert(mapping_by_letters(form + "/A"@) == mapping_by_letters(form));
    lemma_mapping_is_told(form);
    lemma_mapping_is_told(form + "/A"@);
}

/// The document types whose tables are known.
pub fn supported_xml_document_types() -> (types: &'static [&'static str])
    ensures
        types@ == DOCUMENT_TYPES@,
{
    &DOCUMENT_TYPES
}

/// The file of the mapping that makes the tables of a document type.
pub fn mapping_json_for_document_type(document_type: &str) -> (file: Option<&'static str>)
    ensures
        match file {
            Some(f) => mapping_of(document_type@) == Some(f@),
            None => mapping_of(document_type@) is None,
        },
        file is Some <==> is_supported(document_type@),
{
    proof {
        law_supported_types_have_mappings(document_type@);
    }
    let mut i: usize = 0;
    while i < 100
        invariant
            i <= 100,
            mapping_of(document_type@) == mapping_from(document_type@, i as int),
        decreases 100 - i,
    {
        if same_str(DOCUMENT_TYPES[i], document_type) {
            return Some(MAPPING_FILES[i]);
        }
        i += 1;
    }
    None
}

} // verus!
