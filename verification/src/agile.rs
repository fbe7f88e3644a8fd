//! The "agile" encryption scheme: the encryption descriptor, the password-based
//! key derivation, and the segment-wise decryption of the package stream.

use vstd::prelude::*;
use vstd::string::StringSliceAdditionalSpecFns;
use vstd::utf8::{decode_utf8, valid_utf8};

use crate::crypto::{aes256_cbc_decrypt, aes256_cbc_decrypt_two_blocks, cbc_decrypt, sha512, sha512_digest};
use crate::encoding::{
    append_bytes, append_zeros, b64_decode, b64_decode_result, bytes_equal, concat_bytes,
    encode_utf16le, le32, le32_value, parse_u32, parse_u32_error_message, parse_u32_spec,
    ascii_decimal_value, law_le32_reads_back, law_parse_u32_reads_decimal,
    string_equals, string_from_utf8, utf8_error_message,
    u32_from_le_bytes, u32_to_le_bytes, utf16le,
};
use crate::error::{invalid_structure, unimplemented, DecryptError};
use crate::xml::{
    markup_events, xml_event_views, xml_events, AttributeView, ElementView, EventView, XmlAttribute,
    XmlEvent,
};

verus! {

/// The parameters of an agile-encrypted document, read from its XML
/// encryption descriptor.
#[derive(Debug)]
pub struct AgileEncryptionInfo {
    key_data_salt: Vec<u8>,
    key_data_hash_algorithm: String,
    key_data_block_size: u32,
    encrypted_hmac_key: Vec<u8>,
    encrypted_hmac_value: Vec<u8>,
    encrypted_verifier_hash_input: Vec<u8>,
    encrypted_verifier_hash_value: Vec<u8>,
    encrypted_key_value: Vec<u8>,
    spin_count: u32,
    password_salt: Vec<u8>,
    password_hash_algorithm: String,
    password_key_bits: u32,
}

/// The mathematical view of [`AgileEncryptionInfo`].
pub struct InfoView {
    pub key_data_salt: Seq<u8>,
    pub key_data_hash_algorithm: Seq<char>,
    pub key_data_block_size: u32,
    pub encrypted_hmac_key: Seq<u8>,
    pub encrypted_hmac_value: Seq<u8>,
    pub encrypted_verifier_hash_input: Seq<u8>,
    pub encrypted_verifier_hash_value: Seq<u8>,
    pub encrypted_key_value: Seq<u8>,
    pub spin_count: u32,
    pub password_salt: Seq<u8>,
    pub password_hash_algorithm: Seq<char>,
    pub password_key_bits: u32,
}

impl View for AgileEncryptionInfo {
    type V = InfoView;

    closed spec fn view(&self) -> InfoView {
        InfoView {
            key_data_salt: self.key_data_salt@,
            key_data_hash_algorithm: self.key_data_hash_algorithm@,
            key_data_block_size: self.key_data_block_size,
            encrypted_hmac_key: self.encrypted_hmac_key@,
            encrypted_hmac_value: self.encrypted_hmac_value@,
            encrypted_verifier_hash_input: self.encrypted_verifier_hash_input@,
            encrypted_verifier_hash_value: self.encrypted_verifier_hash_value@,
            encrypted_key_value: self.encrypted_key_value@,
            spin_count: self.spin_count,
            password_salt: self.password_salt@,
            password_hash_algorithm: self.password_hash_algorithm@,
            password_key_bits: self.password_key_bits,
        }
    }
}

/// The parameters before anything has been read: empty byte strings and texts,
/// and zero numbers.
pub open spec fn empty_info() -> InfoView {
    InfoView {
        key_data_salt: Seq::empty(),
        key_data_hash_algorithm: Seq::empty(),
        key_data_block_size: 0,
        encrypted_hmac_key: Seq::empty(),
        encrypted_hmac_value: Seq::empty(),
        encrypted_verifier_hash_input: Seq::empty(),
        encrypted_verifier_hash_value: Seq::empty(),
        encrypted_key_value: Seq::empty(),
        spin_count: 0,
        password_salt: Seq::empty(),
        password_hash_algorithm: Seq::empty(),
        password_key_bits: 0,
    }
}

impl Default for AgileEncryptionInfo {
    fn default() -> (info: Self)
        ensures
            info@ == empty_info(),
    {
        AgileEncryptionInfo {
            key_data_salt: Vec::new(),
            key_data_hash_algorithm: String::new(),
            key_data_block_size: 0,
            encrypted_hmac_key: Vec::new(),
            encrypted_hmac_value: Vec::new(),
            encrypted_verifier_hash_input: Vec::new(),
            encrypted_verifier_hash_value: Vec::new(),
            encrypted_key_value: Vec::new(),
            spin_count: 0,
            password_salt: Vec::new(),
            password_hash_algorithm: String::new(),
            password_key_bits: 0,
        }
    }
}

// ---------------------------------------------------------------------------
// The encryption descriptor
// ---------------------------------------------------------------------------

/// The three elements of the descriptor that carry parameters.
#[derive(Clone, Copy, PartialEq, Eq, Structural)]
pub enum Section {
    /// `<keyData .../>`: the parameters of the package encryption.
    KeyData,
    /// `<dataIntegrity .../>`: the encrypted HMAC key and value.
    DataIntegrity,
    /// `<p:encryptedKey .../>`: the parameters of the password key.
    PasswordKey,
}

/// The parser's state: the parameters read so far and which sections have been
/// read. Only the first element of each section is read; later ones are ignored.
pub struct ParseState {
    pub info: InfoView,
    pub key_data_seen: bool,
    pub data_integrity_seen: bool,
    pub password_key_seen: bool,
}

/// The state before any event.
pub open spec fn initial_state() -> ParseState {
    ParseState {
        info: empty_info(),
        key_data_seen: false,
        data_integrity_seen: false,
        password_key_seen: false,
    }
}

/// The name of the element that starts a section.
pub open spec fn section_name(section: Section) -> Seq<u8> {
    match section {
        Section::KeyData => "keyData".spec_bytes(),
        Section::DataIntegrity => "dataIntegrity".spec_bytes(),
        Section::PasswordKey => "p:encryptedKey".spec_bytes(),
    }
}

/// Whether a section has been read in a state.
pub open spec fn section_seen(st: ParseState, section: Section) -> bool {
    match section {
        Section::KeyData => st.key_data_seen,
        Section::DataIntegrity => st.data_integrity_seen,
        Section::PasswordKey => st.password_key_seen,
    }
}

/// The section that an element named `name` starts in state `st`, if it is one
/// of the three and the first of its kind.
pub open spec fn section_of(name: Seq<u8>, st: ParseState) -> Option<Section> {
    if name == section_name(Section::KeyData) && !st.key_data_seen {
        Some(Section::KeyData)
    } else if name == section_name(Section::DataIntegrity) && !st.data_integrity_seen {
        Some(Section::DataIntegrity)
    } else if name == section_name(Section::PasswordKey) && !st.password_key_seen {
        Some(Section::PasswordKey)
    } else {
        None
    }
}

/// An attribute value read as UTF-8 text; an error message starts with `field`,
/// the context that names the attribute.
pub open spec fn text_value(field: Seq<char>, value: Seq<u8>) -> Result<Seq<char>, Seq<char>> {
    if valid_utf8(value) {
        Ok(decode_utf8(value))
    } else {
        Err(field + utf8_error_message(value))
    }
}

/// An attribute value read as UTF-8 text holding a decimal `u32`.
pub open spec fn number_value(field: Seq<char>, value: Seq<u8>) -> Result<u32, Seq<char>> {
    match text_value(field, value) {
        Err(message) => Err(message),
        Ok(text) => match parse_u32_spec(text) {
            Some(n) => Ok(n),
            None => Err(field + "parse(): "@ + parse_u32_error_message(text)),
        },
    }
}

/// The effect of one attribute of an element of `section` on the parameters,
/// or the message of the error its value gives. Attributes that the section
/// does not know leave the parameters unchanged.
pub open spec fn apply_attribute(info: InfoView, section: Section, key: Seq<u8>, value: Seq<u8>) -> Result<InfoView, Seq<char>> {
    match section {
        Section::KeyData => {
            if key == "saltValue".spec_bytes() {
                match b64_decode_result(value) {
                    Ok(v) => Ok(InfoView { key_data_salt: v, ..info }),
                    Err(m) => Err(m),
                }
            } else if key == "hashAlgorithm".spec_bytes() {
                match text_value("AgileEncryption: keyData.hashAlgorithm: "@, value) {
                    Ok(v) => Ok(InfoView { key_data_hash_algorithm: v, ..info }),
                    Err(m) => Err(m),
                }
            } else if key == "blockSize".spec_bytes() {
                match number_value("AgileEncryption: keyData.blockSize: "@, value) {
                    Ok(v) => Ok(InfoView { key_data_block_size: v, ..info }),
                    Err(m) => Err(m),
                }
            } else {
                Ok(info)
            }
        },
        Section::DataIntegrity => {
            if key == "encryptedHmacKey".spec_bytes() {
                match b64_decode_result(value) {
                    Ok(v) => Ok(InfoView { encrypted_hmac_key: v, ..info }),
                    Err(m) => Err(m),
                }
            } else if key == "encryptedHmacValue".spec_bytes() {
                match b64_decode_result(value) {
                    Ok(v) => Ok(InfoView { encrypted_hmac_value: v, ..info }),
                    Err(m) => Err(m),
                }
            } else {
                Ok(info)
            }
        },
        Section::PasswordKey => {
            if key == "encryptedVerifierHashInput".spec_bytes() {
                match b64_decode_result(value) {
                    Ok(v) => Ok(InfoView { encrypted_verifier_hash_input: v, ..info }),
                    Err(m) => Err(m),
                }
            } else if key == "encryptedVerifierHashValue".spec_bytes() {
                match b64_decode_result(value) {
                    Ok(v) => Ok(InfoView { encrypted_verifier_hash_value: v, ..info }),
                    Err(m) => Err(m),
                }
            } else if key == "encryptedKeyValue".spec_bytes() {
                match b64_decode_result(value) {
                    Ok(v) => Ok(InfoView { encrypted_key_value: v, ..info }),
                    Err(m) => Err(m),
                }
            } else if key == "spinCount".spec_bytes() {
                match number_value("AgileEncryption: p:encryptedKey.spinCount: "@, value) {
                    Ok(v) => Ok(InfoView { spin_count: v, ..info }),
                    Err(m) => Err(m),
                }
            } else if key == "saltValue".spec_bytes() {
                match b64_decode_result(value) {
                    Ok(v) => Ok(InfoView { password_salt: v, ..info }),
                    Err(m) => Err(m),
                }
            } else if key == "hashAlgorithm".spec_bytes() {
                match text_value("AgileEncryption: p:encryptedKey.hashAlgorithm: "@, value) {
                    Ok(v) => Ok(InfoView { password_hash_algorithm: v, ..info }),
                    Err(m) => Err(m),
                }
            } else if key == "keyBits".spec_bytes() {
                match number_value("AgileEncryption: p:encryptedKey.keyBits: "@, value) {
                    Ok(v) => Ok(InfoView { password_key_bits: v, ..info }),
                    Err(m) => Err(m),
                }
            } else {
                Ok(info)
            }
        },
    }
}

/// A decimal attribute value is read as its value whenever that fits in a
/// `u32`.
pub proof fn law_number_value_reads_decimal(field: Seq<char>, digits: Seq<u8>, n: u32)
    requires
        digits.len() > 0,
        forall|i: int| 0 <= i < digits.len() ==> 48 <= #[trigger] digits[i] <= 57,
        ascii_decimal_value(digits) == n,
    ensures
        number_value(field, digits) == Ok::<u32, Seq<char>>(n),
{
    law_parse_u32_reads_decimal(digits, n);
}

/// A decimal `spinCount` of the password key element sets the spin count to
/// its value whenever that fits in a `u32`, and leaves everything else.
pub proof fn law_spin_count_read(info: InfoView, digits: Seq<u8>, n: u32)
    requires
        digits.len() > 0,
        forall|i: int| 0 <= i < digits.len() ==> 48 <= #[trigger] digits[i] <= 57,
        ascii_decimal_value(digits) == n,
    ensures
        apply_attribute(info, Section::PasswordKey, "spinCount".spec_bytes(), digits) == Ok::<
            InfoView,
            Seq<char>,
        >(InfoView { spin_count: n, ..info }),
{
    law_number_value_reads_decimal("AgileEncryption: p:encryptedKey.spinCount: "@, digits, n);
    broadcast use vstd::string::group_string_axioms;

    reveal_strlit("encryptedVerifierHashInput");
    reveal_strlit("encryptedVerifierHashValue");
    reveal_strlit("encryptedKeyValue");
    reveal_strlit("spinCount");
    assert(vstd::string::is_ascii("encryptedVerifierHashInput"));
    assert(vstd::string::is_ascii("encryptedVerifierHashValue"));
    assert(vstd::string::is_ascii("encryptedKeyValue"));
    assert(vstd::string::is_ascii("spinCount"));
    assert("spinCount".spec_bytes().len() == 9);
    assert("encryptedKeyValue".spec_bytes().len() == 17);
    assert("encryptedVerifierHashInput".spec_bytes().len() == 26);
    assert("encryptedVerifierHashValue".spec_bytes().len() == 26);
}

/// The prefix of the message of a malformed attribute of a section's element.
pub open spec fn attributes_context(section: Section) -> Seq<char> {
    match section {
        Section::KeyData => "AgileEncryption: keyData: attributes(): "@,
        Section::DataIntegrity => "AgileEncryption: dataIntegrity: attributes(): "@,
        Section::PasswordKey => "AgileEncryption: p:encryptedKey: attributes(): "@,
    }
}

/// The effect of the attributes of an element of `section`, in document order;
/// fails at the first malformed attribute or value that cannot be decoded.
pub open spec fn apply_attributes(info: InfoView, section: Section, attributes: Seq<AttributeView>) -> Result<InfoView, Seq<char>>
    decreases attributes.len(),
{
    if attributes.len() == 0 {
        Ok(info)
    } else {
        match apply_attributes(info, section, attributes.drop_last()) {
            Err(m) => Err(m),
            Ok(before) => match attributes.last() {
                AttributeView::Attribute { key, value } => apply_attribute(before, section, key, value),
                AttributeView::Malformed(m) => Err(attributes_context(section) + m),
            },
        }
    }
}

/// The state after an element of `section` has been read, with parameters `info`.
pub open spec fn section_read(st: ParseState, section: Section, info: InfoView) -> ParseState {
    match section {
        Section::KeyData => ParseState { info, key_data_seen: true, ..st },
        Section::DataIntegrity => ParseState { info, data_integrity_seen: true, ..st },
        Section::PasswordKey => ParseState { info, password_key_seen: true, ..st },
    }
}

/// Where reading a sequence of events stands.
pub enum Progress {
    /// Still reading, in this state.
    Reading(ParseState),
    /// The end of the document was reached in this state.
    Finished(ParseState),
    /// Reading failed, with this message.
    Failed(Seq<char>),
}

/// The effect of one event on a state in which reading goes on.
pub open spec fn step(st: ParseState, event: EventView) -> Progress {
    match event {
        EventView::Eof => Progress::Finished(st),
        EventView::Other => Progress::Reading(st),
        EventView::Malformed(m) => Progress::Failed("AgileEncryption: "@ + m),
        EventView::Empty(element) => match section_of(element.name, st) {
            None => Progress::Reading(st),
            Some(section) => match apply_attributes(st.info, section, element.attributes) {
                Err(m) => Progress::Failed(m),
                Ok(info) => Progress::Reading(section_read(st, section, info)),
            },
        },
    }
}

/// Reading a sequence of events from the initial state; nothing after the end
/// of the document or after a failure is looked at.
pub open spec fn read_events(events: Seq<EventView>) -> Progress
    decreases events.len(),
{
    if events.len() == 0 {
        Progress::Reading(initial_state())
    } else {
        match read_events(events.drop_last()) {
            Progress::Reading(st) => step(st, events.last()),
            done => done,
        }
    }
}

/// The parameters of a state, provided all three sections have been read;
/// otherwise the message naming the first missing section.
pub open spec fn complete(st: ParseState) -> Result<InfoView, Seq<char>> {
    if !st.key_data_seen {
        Err("AgileEncryption: keyData is missing"@)
    } else if !st.data_integrity_seen {
        Err("AgileEncryption: dataIntegrity is missing"@)
    } else if !st.password_key_seen {
        Err("AgileEncryption: p:encryptedKey is missing"@)
    } else {
        Ok(st.info)
    }
}

/// The parameters that a sequence of events describes, or the message of the
/// error that reading it gives.
pub open spec fn parse_events(events: Seq<EventView>) -> Result<InfoView, Seq<char>> {
    match read_events(events) {
        Progress::Failed(m) => Err(m),
        Progress::Reading(st) => complete(st),
        Progress::Finished(st) => complete(st),
    }
}

/// The parser of the descriptor.
struct DescriptorParser {
    info: AgileEncryptionInfo,
    key_data_seen: bool,
    data_integrity_seen: bool,
    password_key_seen: bool,
}

impl View for DescriptorParser {
    type V = ParseState;

    closed spec fn view(&self) -> ParseState {
        ParseState {
            info: self.info@,
            key_data_seen: self.key_data_seen,
            data_integrity_seen: self.data_integrity_seen,
            password_key_seen: self.password_key_seen,
        }
    }
}

/// The prefix of the message of a malformed attribute of a section's element.
fn section_context(section: Section) -> (context: &'static str)
    ensures
        context@ == attributes_context(section),
{
    match section {
        Section::KeyData => "AgileEncryption: keyData: attributes(): ",
        Section::DataIntegrity => "AgileEncryption: dataIntegrity: attributes(): ",
        Section::PasswordKey => "AgileEncryption: p:encryptedKey: attributes(): ",
    }
}

/// Decodes a base64 attribute value.
fn decode_b64_value(value: &[u8]) -> (r: Result<Vec<u8>, DecryptError>)
    ensures
        match r {
            Ok(v) => b64_decode_result(value@) == Ok::<Seq<u8>, Seq<char>>(v@),
            Err(e) => e matches DecryptError::InvalidStructure(m) && b64_decode_result(value@)
                == Err::<Seq<u8>, Seq<char>>(m@),
        },
{
    b64_decode(value)
}

/// Reads an attribute value as UTF-8 text.
fn decode_text_value(field: &str, value: &[u8]) -> (r: Result<String, DecryptError>)
    ensures
        match r {
            Ok(v) => text_value(field@, value@) == Ok::<Seq<char>, Seq<char>>(v@),
            Err(e) => e matches DecryptError::InvalidStructure(m) && text_value(field@, value@)
                == Err::<Seq<char>, Seq<char>>(m@),
        },
{
    match string_from_utf8(vstd::slice::slice_to_vec(value)) {
        Ok(text) => Ok(text),
        Err(message) => Err(invalid_structure(field, message.as_str())),
    }
}

/// Reads an attribute value as UTF-8 text holding a decimal `u32`.
fn decode_number_value(field: &str, value: &[u8]) -> (r: Result<u32, DecryptError>)
    ensures
        match r {
            Ok(v) => number_value(field@, value@) == Ok::<u32, Seq<char>>(v),
            Err(e) => e matches DecryptError::InvalidStructure(m) && number_value(field@, value@)
                == Err::<u32, Seq<char>>(m@),
        },
{
    let text = match decode_text_value(field, value) {
        Ok(text) => text,
        Err(e) => return Err(e),
    };
    match parse_u32(text.as_str()) {
        Ok(n) => Ok(n),
        Err(message) => {
            let mut full = String::from_str(field);
            full.append("parse(): ");
            full.append(message.as_str());
            proof {
                assert(full@ == field@ + "parse(): "@ + message@);
            }
            Err(DecryptError::InvalidStructure(full))
        },
    }
}

impl AgileEncryptionInfo {
    /// Applies one attribute of an element of `section`.
    fn apply_attribute(&mut self, section: Section, key: &[u8], value: &[u8]) -> (r: Result<(), DecryptError>)
        ensures
            match r {
                Ok(()) => apply_attribute(old(self)@, section, key@, value@) == Ok::<InfoView, Seq<char>>(final(self)@),
                Err(e) => e matches DecryptError::InvalidStructure(m) && apply_attribute(old(self)@, section, key@, value@)
                    == Err::<InfoView, Seq<char>>(m@),
            },
    {
        match section {
            Section::KeyData => {
                if bytes_equal(key, "saltValue".as_bytes()) {
                    match decode_b64_value(value) {
                        Ok(v) => self.key_data_salt = v,
                        Err(e) => return Err(e),
                    }
                } else if bytes_equal(key, "hashAlgorithm".as_bytes()) {
                    match decode_text_value("AgileEncryption: keyData.hashAlgorithm: ", value) {
                        Ok(v) => self.key_data_hash_algorithm = v,
                        Err(e) => return Err(e),
                    }
                } else if bytes_equal(key, "blockSize".as_bytes()) {
                    match decode_number_value("AgileEncryption: keyData.blockSize: ", value) {
                        Ok(v) => self.key_data_block_size = v,
                        Err(e) => return Err(e),
                    }
                }
            },
            Section::DataIntegrity => {
                if bytes_equal(key, "encryptedHmacKey".as_bytes()) {
                    match decode_b64_value(value) {
                        Ok(v) => self.encrypted_hmac_key = v,
                        Err(e) => return Err(e),
                    }
                } else if bytes_equal(key, "encryptedHmacValue".as_bytes()) {
                    match decode_b64_value(value) {
                        Ok(v) => self.encrypted_hmac_value = v,
                        Err(e) => return Err(e),
                    }
                }
            },
            Section::PasswordKey => {
                if bytes_equal(key, "encryptedVerifierHashInput".as_bytes()) {
                    match decode_b64_value(value) {
                        Ok(v) => self.encrypted_verifier_hash_input = v,
                        Err(e) => return Err(e),
                    }
                } else if bytes_equal(key, "encryptedVerifierHashValue".as_bytes()) {
                    match decode_b64_value(value) {
                        Ok(v) => self.encrypted_verifier_hash_value = v,
                        Err(e) => return Err(e),
                    }
                } else if bytes_equal(key, "encryptedKeyValue".as_bytes()) {
                    match decode_b64_value(value) {
                        Ok(v) => self.encrypted_key_value = v,
                        Err(e) => return Err(e),
                    }
                } else if bytes_equal(key, "spinCount".as_bytes()) {
                    match decode_number_value("AgileEncryption: p:encryptedKey.spinCount: ", value) {
                        Ok(v) => self.spin_count = v,
                        Err(e) => return Err(e),
                    }
                } else if bytes_equal(key, "saltValue".as_bytes()) {
                    match decode_b64_value(value) {
                        Ok(v) => self.password_salt = v,
                        Err(e) => return Err(e),
                    }
                } else if bytes_equal(key, "hashAlgorithm".as_bytes()) {
                    match decode_text_value("AgileEncryption: p:encryptedKey.hashAlgorithm: ", value) {
                        Ok(v) => self.password_hash_algorithm = v,
                        Err(e) => return Err(e),
                    }
                } else if bytes_equal(key, "keyBits".as_bytes()) {
                    match decode_number_value("AgileEncryption: p:encryptedKey.keyBits: ", value) {
                        Ok(v) => self.password_key_bits = v,
                        Err(e) => return Err(e),
                    }
                }
            },
        }
        Ok(())
    }
}

impl DescriptorParser {
    fn start() -> (p: Self)
        ensures
            p@ == initial_state(),
    {
        DescriptorParser {
            info: AgileEncryptionInfo::default(),
            key_data_seen: false,
            data_integrity_seen: false,
            password_key_seen: false,
        }
    }

    /// The section that an element named `name` starts, if any.
    fn section_for(&self, name: &[u8]) -> (r: Option<Section>)
        ensures
            r == section_of(name@, self@),
    {
        if bytes_equal(name, "keyData".as_bytes()) && !self.key_data_seen {
            Some(Section::KeyData)
        } else if bytes_equal(name, "dataIntegrity".as_bytes()) && !self.data_integrity_seen {
            Some(Section::DataIntegrity)
        } else if bytes_equal(name, "p:encryptedKey".as_bytes()) && !self.password_key_seen {
            Some(Section::PasswordKey)
        } else {
            None
        }
    }

    /// Applies one attribute (or the error met reading it) of an element of `section`.
    fn attribute(&mut self, section: Section, attribute: &XmlAttribute) -> (r: Result<(), DecryptError>)
        ensures
            final(self).key_data_seen == old(self).key_data_seen,
            final(self).data_integrity_seen == old(self).data_integrity_seen,
            final(self).password_key_seen == old(self).password_key_seen,
            match r {
                Ok(()) => apply_attributes(old(self)@.info, section, seq![attribute@]) == Ok::<
                    InfoView,
                    Seq<char>,
                >(final(self)@.info),
                Err(e) => e matches DecryptError::InvalidStructure(m) && apply_attributes(
                    old(self)@.info,
                    section,
                    seq![attribute@],
                ) == Err::<InfoView, Seq<char>>(m@),
            },
    {
        proof {
            assert(seq![attribute@].drop_last() =~= Seq::<AttributeView>::empty());
            assert(apply_attributes(self@.info, section, Seq::<AttributeView>::empty()) == Ok::<
                InfoView,
                Seq<char>,
            >(self@.info));
        }
        match attribute {
            XmlAttribute::Attribute { key, value } => self.info.apply_attribute(
                section,
                key.as_slice(),
                value.as_slice(),
            ),
            XmlAttribute::Malformed(message) => Err(
                invalid_structure(section_context(section), message.as_str()),
            ),
        }
    }

    /// Records that the element of `section` has been read.
    fn section_done(&mut self, section: Section)
        ensures
            final(self)@ == section_read(old(self)@, section, old(self)@.info),
    {
        match section {
            Section::KeyData => self.key_data_seen = true,
            Section::DataIntegrity => self.data_integrity_seen = true,
            Section::PasswordKey => self.password_key_seen = true,
        }
    }

    /// The parameters, provided all three sections have been read.
    fn finish(self) -> (r: Result<AgileEncryptionInfo, DecryptError>)
        ensures
            match r {
                Ok(info) => complete(self@) == Ok::<InfoView, Seq<char>>(info@),
                Err(e) => e matches DecryptError::InvalidStructure(m) && complete(self@) == Err::<
                    InfoView,
                    Seq<char>,
                >(m@),
            },
    {
        if !self.key_data_seen {
            return Err(
                DecryptError::InvalidStructure(String::from_str("AgileEncryption: keyData is missing")),
            );
        }
        if !self.data_integrity_seen {
            return Err(
                DecryptError::InvalidStructure(
                    String::from_str("AgileEncryption: dataIntegrity is missing"),
                ),
            );
        }
        if !self.password_key_seen {
            return Err(
                DecryptError::InvalidStructure(
                    String::from_str("AgileEncryption: p:encryptedKey is missing"),
                ),
            );
        }
        Ok(self.info)
    }
}

/// `apply_attributes` over a longer sequence continues from the shorter one.
proof fn lemma_apply_attributes_push(info: InfoView, section: Section, attributes: Seq<AttributeView>, a: AttributeView)
    ensures
        apply_attributes(info, section, attributes.push(a)) == match apply_attributes(info, section, attributes) {
            Err(m) => Err(m),
            Ok(before) => apply_attributes(before, section, seq![a]),
        },
{
    assert(attributes.push(a).drop_last() =~= attributes);
    assert(seq![a].drop_last() =~= Seq::<AttributeView>::empty());
    match apply_attributes(info, section, attributes) {
        Err(_) => {},
        Ok(before) => {
            assert(apply_attributes(before, section, Seq::<AttributeView>::empty()) == Ok::<
                InfoView,
                Seq<char>,
            >(before));
        },
    }
}

/// Once reading attributes has failed, later attributes do not matter.
proof fn lemma_apply_attributes_failed(info: InfoView, section: Section, attributes: Seq<AttributeView>, more: Seq<AttributeView>)
    requires
        apply_attributes(info, section, attributes) is Err,
    ensures
        apply_attributes(info, section, attributes + more) == apply_attributes(info, section, attributes),
    decreases more.len(),
{
    if more.len() == 0 {
        assert(attributes + more =~= attributes);
    } else {
        lemma_apply_attributes_failed(info, section, attributes, more.drop_last());
        assert((attributes + more).drop_last() =~= attributes + more.drop_last());
    }
}

/// Reading one more event continues from where the shorter sequence stands.
proof fn lemma_read_events_push(events: Seq<EventView>, e: EventView)
    ensures
        read_events(events.push(e)) == match read_events(events) {
            Progress::Reading(st) => step(st, e),
            done => done,
        },
{
    assert(events.push(e).drop_last() =~= events);
}

/// Once reading has stopped, later events do not matter.
pub proof fn lemma_read_events_stopped(events: Seq<EventView>, more: Seq<EventView>)
    requires
        !(read_events(events) is Reading),
    ensures
        read_events(events + more) == read_events(events),
    decreases more.len(),
{
    if more.len() == 0 {
        assert(events + more =~= events);
    } else {
        lemma_read_events_stopped(events, more.drop_last());
        assert((events + more).drop_last() =~= events + more.drop_last());
    }
}

/// Reading the same state onwards gives the same outcome, whatever came before.
proof fn lemma_read_events_same_onwards(a: Seq<EventView>, b: Seq<EventView>, more: Seq<EventView>)
    requires
        read_events(a) == read_events(b),
    ensures
        read_events(a + more) == read_events(b + more),
    decreases more.len(),
{
    if more.len() == 0 {
        assert(a + more =~= a);
        assert(b + more =~= b);
    } else {
        lemma_read_events_same_onwards(a, b, more.drop_last());
        assert((a + more).drop_last() =~= a + more.drop_last());
        assert((b + more).drop_last() =~= b + more.drop_last());
    }
}

/// Events other than markup (`Other`) do not change the outcome of reading.
proof fn lemma_read_markup_events(events: Seq<EventView>)
    ensures
        read_events(markup_events(events)) == read_events(events),
    decreases events.len(),
{
    reveal_with_fuel(Seq::<_>::filter, 1);
    if events.len() > 0 {
        lemma_read_markup_events(events.drop_last());
        let last = events.last();
        let shorter = markup_events(events.drop_last());
        if last is Other {
            assert(markup_events(events) == shorter);
            lemma_read_events_push(events.drop_last(), last);
        } else {
            assert(markup_events(events) == shorter.push(last));
            lemma_read_events_push(shorter, last);
            lemma_read_events_push(events.drop_last(), last);
        }
    }
}

/// The three section names differ.
proof fn lemma_section_names_distinct()
    ensures
        section_name(Section::KeyData) != section_name(Section::DataIntegrity),
        section_name(Section::KeyData) != section_name(Section::PasswordKey),
        section_name(Section::DataIntegrity) != section_name(Section::PasswordKey),
{
    broadcast use vstd::string::group_string_axioms;

    reveal_strlit("keyData");
    reveal_strlit("dataIntegrity");
    reveal_strlit("p:encryptedKey");
    assert(vstd::string::is_ascii("keyData"));
    assert(vstd::string::is_ascii("dataIntegrity"));
    assert(vstd::string::is_ascii("p:encryptedKey"));
    assert(section_name(Section::KeyData).len() == 7);
    assert(section_name(Section::DataIntegrity).len() == 13);
    assert(section_name(Section::PasswordKey).len() == 14);
}

/// Only the first element of a section is read: once a section has been read,
/// a later element of the same section, whatever its attributes, changes
/// nothing.
pub proof fn law_repeated_section_ignored(
    events: Seq<EventView>,
    section: Section,
    element: ElementView,
    more: Seq<EventView>,
)
    requires
        read_events(events) matches Progress::Reading(st) && section_seen(st, section),
        element.name == section_name(section),
    ensures
        parse_events(events.push(EventView::Empty(element)) + more) == parse_events(events + more),
{
    lemma_section_names_distinct();
    lemma_read_events_push(events, EventView::Empty(element));
    lemma_read_events_same_onwards(events.push(EventView::Empty(element)), events, more);
}

/// Nothing after the end of the document is read.
pub proof fn law_events_after_end_ignored(events: Seq<EventView>, more: Seq<EventView>)
    ensures
        parse_events(events.push(EventView::Eof) + more) == parse_events(events.push(EventView::Eof)),
{
    lemma_read_events_push(events, EventView::Eof);
    lemma_read_events_stopped(events.push(EventView::Eof), more);
}

/// A section stays unread as long as no element of it comes.
proof fn lemma_section_unseen(events: Seq<EventView>, section: Section)
    requires
        forall|i: int|
            0 <= i < events.len() ==> !(#[trigger] events[i] matches EventView::Empty(e) && e.name
                == section_name(section)),
    ensures
        read_events(events) matches Progress::Reading(st) ==> !section_seen(st, section),
        read_events(events) matches Progress::Finished(st) ==> !section_seen(st, section),
    decreases events.len(),
{
    if events.len() > 0 {
        let init = events.drop_last();
        assert forall|i: int| 0 <= i < init.len() implies !(#[trigger] init[i] matches EventView::Empty(e)
            && e.name == section_name(section)) by {
            assert(init[i] == events[i]);
        }
        lemma_section_unseen(init, section);
        assert(events[events.len() - 1] == events.last());
    }
}

/// A descriptor that lacks an element of one of the three sections is refused.
pub proof fn law_missing_section_refused(events: Seq<EventView>, section: Section)
    requires
        forall|i: int|
            0 <= i < events.len() ==> !(#[trigger] events[i] matches EventView::Empty(e) && e.name
                == section_name(section)),
    ensures
        parse_events(events) is Err,
{
    lemma_section_unseen(events, section);
}

impl AgileEncryptionInfo {
    /// Reads the parameters from the XML text of the encryption descriptor.
    ///
    /// The text is tokenised by `quick_xml` (with text trimming on) and the
    /// events are read as [`AgileEncryptionInfo::from_events`] reads them: the
    /// result is the parse of the events that `quick_xml` gives for the text.
    /// An XML error fails with `InvalidStructure`.
    pub fn new(raw_xml: &str) -> (r: Result<Self, DecryptError>)
        ensures
            match r {
                Ok(info) => parse_events(xml_event_views(raw_xml@)) == Ok::<InfoView, Seq<char>>(
                    info@,
                ),
                Err(e) => e matches DecryptError::InvalidStructure(m) && parse_events(
                    xml_event_views(raw_xml@),
                ) == Err::<InfoView, Seq<char>>(m@),
            },
    {
        let events = xml_events(raw_xml);
        proof {
            lemma_read_markup_events(events@.map_values(|e: XmlEvent| e@));
            lemma_read_markup_events(xml_event_views(raw_xml@));
        }
        Self::from_events(&events)
    }

    /// Reads the parameters from a sequence of XML events: the first
    /// `keyData`, `dataIntegrity` and `p:encryptedKey` self-closing elements
    /// are read, in document order, up to the end of the document. Fails with
    /// `InvalidStructure` exactly when an event or attribute is malformed, a
    /// value cannot be decoded, or one of the three elements is missing, with
    /// the message that `parse_events` gives.
    #[verifier::loop_isolation(false)]
    pub fn from_events(events: &Vec<XmlEvent>) -> (r: Result<Self, DecryptError>)
        ensures
            match r {
                Ok(info) => parse_events(events@.map_values(|e: XmlEvent| e@)) == Ok::<
                    InfoView,
                    Seq<char>,
                >(info@),
                Err(e) => e matches DecryptError::InvalidStructure(m) && parse_events(
                    events@.map_values(|e: XmlEvent| e@),
                ) == Err::<InfoView, Seq<char>>(m@),
            },
    {
        let ghost views = events@.map_values(|e: XmlEvent| e@);
        let mut parser = DescriptorParser::start();
        let mut i: usize = 0;
        while i < events.len()
            invariant
                i <= events@.len(),
                views == events@.map_values(|e: XmlEvent| e@),
                read_events(views.take(i as int)) == Progress::Reading(parser@),
            decreases events@.len() - i,
        {
            proof {
                assert(views.take(i + 1) =~= views.take(i as int).push(views[i as int]));
                lemma_read_events_push(views.take(i as int), views[i as int]);
            }
            match &events[i] {
                XmlEvent::Eof => {
                    proof {
                        lemma_read_events_stopped(views.take(i + 1), views.skip(i + 1));
                        assert(views.take(i + 1) + views.skip(i + 1) =~= views);
                    }
                    return parser.finish();
                },
                XmlEvent::Other => {},
                XmlEvent::Malformed(message) => {
                    proof {
                        lemma_read_events_stopped(views.take(i + 1), views.skip(i + 1));
                        assert(views.take(i + 1) + views.skip(i + 1) =~= views);
                    }
                    return Err(invalid_structure("AgileEncryption: ", message.as_str()));
                },
                XmlEvent::Empty(element) => {
                    let ghost before = parser@;
                    match parser.section_for(element.name.as_slice()) {
                        None => {},
                        Some(section) => {
                            let ghost attrs = element.attributes@.map_values(|a: XmlAttribute| a@);
                            let mut j: usize = 0;
                            while j < element.attributes.len()
                                invariant
                                    j <= element.attributes@.len(),
                                    attrs == element.attributes@.map_values(|a: XmlAttribute| a@),
                                    parser.key_data_seen == before.key_data_seen,
                                    parser.data_integrity_seen == before.data_integrity_seen,
                                    parser.password_key_seen == before.password_key_seen,
                                    apply_attributes(before.info, section, attrs.take(j as int))
                                        == Ok::<InfoView, Seq<char>>(parser@.info),
                                decreases element.attributes@.len() - j,
                            {
                                proof {
                                    assert(attrs.take(j + 1) =~= attrs.take(j as int).push(attrs[j as int]));
                                    lemma_apply_attributes_push(before.info, section, attrs.take(j as int), attrs[j as int]);
                                }
                                let outcome = parser.attribute(section, &element.attributes[j]);
                                if let Err(e) = outcome {
                                    proof {
                                        lemma_apply_attributes_failed(before.info, section, attrs.take(j + 1), attrs.skip(j + 1));
                                        assert(attrs.take(j + 1) + attrs.skip(j + 1) =~= attrs);
                                        lemma_read_events_stopped(views.take(i + 1), views.skip(i + 1));
                                        assert(views.take(i + 1) + views.skip(i + 1) =~= views);
                                    }
                                    return Err(e);
                                }
                                j = j + 1;
                            }
                            proof {
                                assert(attrs.take(j as int) =~= attrs);
                            }
                            parser.section_done(section);
                        },
                    }
                },
            }
            i = i + 1;
        }
        proof {
            assert(views.take(i as int) =~= views);
        }
        parser.finish()
    }
}

// ---------------------------------------------------------------------------
// Hash algorithms
// ---------------------------------------------------------------------------

/// The one hash algorithm that is supported.
pub open spec fn is_sha512(algorithm: Seq<char>) -> bool {
    algorithm == "SHA512"@
}

/// Hash algorithms that are recognised but not supported.
pub open spec fn is_unsupported_hash(algorithm: Seq<char>) -> bool {
    algorithm == "SHA1"@ || algorithm == "SHA256"@ || algorithm == "SHA384"@
}

/// Which of the three cases a hash algorithm name falls in.
enum HashChoice {
    Sha512,
    Unsupported,
    Unknown,
}

fn hash_choice(algorithm: &String) -> (c: HashChoice)
    ensures
        c is Sha512 <==> is_sha512(algorithm@),
        c is Unsupported <==> !is_sha512(algorithm@) && is_unsupported_hash(algorithm@),
        c is Unknown <==> !is_sha512(algorithm@) && !is_unsupported_hash(algorithm@),
{
    if string_equals(algorithm, "SHA512") {
        HashChoice::Sha512
    } else if string_equals(algorithm, "SHA1") || string_equals(algorithm, "SHA256")
        || string_equals(algorithm, "SHA384") {
        HashChoice::Unsupported
    } else {
        HashChoice::Unknown
    }
}

// ---------------------------------------------------------------------------
// Key derivation
// ---------------------------------------------------------------------------

/// The block key that derives the key for the encrypted key value.
pub open spec fn block3() -> Seq<u8> {
    seq![0x14u8, 0x6Eu8, 0x0Bu8, 0xE7u8, 0xABu8, 0xACu8, 0xD0u8, 0xD6u8]
}

fn block3_bytes() -> (b: Vec<u8>)
    ensures
        b@ == block3(),
{
    let b: Vec<u8> = vec![0x14, 0x6E, 0x0B, 0xE7, 0xAB, 0xAC, 0xD0, 0xD6];
    assert(b@ =~= block3());
    b
}

/// `n` rounds of rehashing: round `i` hashes the little-endian bytes of `i`
/// followed by the previous hash.
pub open spec fn iterate_hash(h: Seq<u8>, n: nat) -> Seq<u8>
    decreases n,
{
    if n == 0 {
        h
    } else {
        sha512(le32((n - 1) as u32) + iterate_hash(h, (n - 1) as nat))
    }
}

/// Round `n` of the password hash hashes four bytes that read, little-endian,
/// as the round's number `n` (over the whole range of `u32`), followed by the
/// hash of the previous round.
pub proof fn law_hash_round_counts_rounds(h: Seq<u8>, n: nat)
    requires
        n <= u32::MAX,
    ensures
        exists|counter: Seq<u8>|
            #![trigger le32_value(counter)]
            counter.len() == 4 && le32_value(counter) == n && iterate_hash(h, n + 1) == sha512(
                counter + iterate_hash(h, n),
            ),
{
    law_le32_reads_back(n as u32);
    assert(iterate_hash(h, n + 1) == sha512(le32(n as u32) + iterate_hash(h, n)));
    assert(le32_value(le32(n as u32)) == n);
}

/// The iterated hash of a password: SHA-512 of the salt followed by the UTF-16LE
/// password, rehashed `spin_count` times.
pub open spec fn password_hash(info: InfoView, password: Seq<char>) -> Seq<u8> {
    iterate_hash(sha512(info.password_salt + utf16le(password)), info.spin_count as nat)
}

/// The key derived from a hash for a block key: SHA-512 of the hash followed
/// by the block key, cut to the key size.
pub open spec fn derived_key(info: InfoView, digest: Seq<u8>, block: Seq<u8>) -> Seq<u8> {
    sha512(digest + block).take((info.password_key_bits / 8) as int)
}

/// The file key that a password unlocks: the encrypted key value, decrypted in
/// CBC mode with the password-derived key and the password salt as IV.
pub open spec fn file_key(info: InfoView, password: Seq<char>) -> Seq<u8> {
    cbc_decrypt(
        derived_key(info, password_hash(info, password), block3()),
        info.password_salt,
        info.encrypted_key_value,
    )
}

/// What deriving the file key needs of the parameters: with SHA-512, a 256-bit
/// key, a 16-byte salt and a 32-byte encrypted key value.
pub open spec fn key_derivation_defined(info: InfoView) -> bool {
    is_sha512(info.password_hash_algorithm) ==> {
        &&& info.password_key_bits / 8 == 32
        &&& info.password_salt.len() == 16
        &&& info.encrypted_key_value.len() == 32
    }
}

impl AgileEncryptionInfo {
    /// Whether the parameters allow deriving a file key.
    pub open spec fn key_derivation_defined(&self) -> bool {
        key_derivation_defined(self@)
    }

    /// The file key that `password` unlocks.
    pub open spec fn file_key(&self, password: Seq<char>) -> Seq<u8> {
        file_key(self@, password)
    }

    /// Whether the password hash algorithm is SHA-512.
    pub open spec fn password_hash_is_sha512(&self) -> bool {
        is_sha512(self@.password_hash_algorithm)
    }

    /// Whether the password hash algorithm is SHA-1, SHA-256 or SHA-384.
    pub open spec fn password_hash_is_unsupported(&self) -> bool {
        is_unsupported_hash(self@.password_hash_algorithm)
    }

    /// Derives the file key from a password: the password is hashed with the
    /// salt and rehashed `spin_count` times, a key is derived from that hash,
    /// and the encrypted key value is decrypted with it. Only SHA-512 is
    /// supported; SHA-1, SHA-256 and SHA-384 fail with `Unimplemented`, any other
    /// algorithm with `InvalidStructure`.
    pub fn key_from_password(&self, password: &str) -> (r: Result<Vec<u8>, DecryptError>)
        requires
            self.key_derivation_defined(),
        ensures
            self.password_hash_is_sha512() ==> (r matches Ok(key) && key@ == self.file_key(password@)
                && key@.len() == 32),
            !self.password_hash_is_sha512() && self.password_hash_is_unsupported() ==> (r matches Err(
                DecryptError::Unimplemented(m),
            ) && m@ == "AgileEncryption: password_hash_algorithm: "@ + self@.password_hash_algorithm),
            !self.password_hash_is_sha512() && !self.password_hash_is_unsupported() ==> (r matches Err(
                DecryptError::InvalidStructure(m),
            ) && m@ == "AgileEncryption: unrecognised password hash algorithm"@),
    {
        let digest = match self.iterated_hash_from_password(password) {
            Ok(digest) => digest,
            Err(e) => return Err(e),
        };
        let block = block3_bytes();
        let encryption_key = match self.encryption_key(digest.as_slice(), block.as_slice()) {
            Ok(key) => key,
            Err(e) => return Err(e),
        };
        self.decrypt_aes_cbc(encryption_key.as_slice())
    }

    /// The iterated hash of a password (see [`password_hash`]).
    fn iterated_hash_from_password(&self, password: &str) -> (r: Result<Vec<u8>, DecryptError>)
        ensures
            is_sha512(self@.password_hash_algorithm) ==> (r matches Ok(h) && h@ == password_hash(
                self@,
                password@,
            ) && h@.len() == 64),
            !is_sha512(self@.password_hash_algorithm) && is_unsupported_hash(
                self@.password_hash_algorithm,
            ) ==> (r matches Err(DecryptError::Unimplemented(m)) && m@
                == "AgileEncryption: password_hash_algorithm: "@ + self@.password_hash_algorithm),
            !is_sha512(self@.password_hash_algorithm) && !is_unsupported_hash(
                self@.password_hash_algorithm,
            ) ==> (r matches Err(DecryptError::InvalidStructure(m)) && m@
                == "AgileEncryption: unrecognised password hash algorithm"@),
    {
        match hash_choice(&self.password_hash_algorithm) {
            HashChoice::Sha512 => {
                let password_bytes = encode_utf16le(password);
                let salted = concat_bytes(self.password_salt.as_slice(), password_bytes.as_slice());
                let mut h = sha512_digest(salted.as_slice());
                let ghost h0 = h@;
                let mut i: u32 = 0;
                while i < self.spin_count
                    invariant
                        i <= self.spin_count,
                        h0 == sha512(self@.password_salt + utf16le(password@)),
                        h@ == iterate_hash(h0, i as nat),
                        h@.len() == 64,
                    decreases self.spin_count - i,
                {
                    let counter = u32_to_le_bytes(i);
                    let input = concat_bytes(counter.as_slice(), h.as_slice());
                    h = sha512_digest(input.as_slice());
                    i = i + 1;
                }
                Ok(h)
            },
            HashChoice::Unsupported => Err(
                unimplemented(
                    "AgileEncryption: password_hash_algorithm: ",
                    self.password_hash_algorithm.as_str(),
                ),
            ),
            HashChoice::Unknown => Err(
                DecryptError::InvalidStructure(
                    String::from_str("AgileEncryption: unrecognised password hash algorithm"),
                ),
            ),
        }
    }

    /// The key derived from `digest` for the block key `block` (see [`derived_key`]).
    fn encryption_key(&self, digest: &[u8], block: &[u8]) -> (r: Result<Vec<u8>, DecryptError>)
        requires
            is_sha512(self@.password_hash_algorithm) ==> self@.password_key_bits / 8 <= 64,
        ensures
            is_sha512(self@.password_hash_algorithm) ==> (r matches Ok(k) && k@ == derived_key(
                self@,
                digest@,
                block@,
            ) && k@.len() == self@.password_key_bits / 8),
            !is_sha512(self@.password_hash_algorithm) && is_unsupported_hash(
                self@.password_hash_algorithm,
            ) ==> (r matches Err(DecryptError::Unimplemented(m)) && m@
                == "AgileEncryption: password_hash_algorithm: "@ + self@.password_hash_algorithm),
            !is_sha512(self@.password_hash_algorithm) && !is_unsupported_hash(
                self@.password_hash_algorithm,
            ) ==> (r matches Err(DecryptError::InvalidStructure(m)) && m@
                == "AgileEncryption: unrecognised password hash algorithm"@),
    {
        match hash_choice(&self.password_hash_algorithm) {
            HashChoice::Sha512 => {
                let input = concat_bytes(digest, block);
                let h = sha512_digest(input.as_slice());
                let key_bytes = (self.password_key_bits / 8) as usize;
                let key = vstd::slice::slice_to_vec(vstd::slice::slice_subrange(h.as_slice(), 0, key_bytes));
                Ok(key)
            },
            HashChoice::Unsupported => Err(
                unimplemented(
                    "AgileEncryption: password_hash_algorithm: ",
                    self.password_hash_algorithm.as_str(),
                ),
            ),
            HashChoice::Unknown => Err(
                DecryptError::InvalidStructure(
                    String::from_str("AgileEncryption: unrecognised password hash algorithm"),
                ),
            ),
        }
    }

    /// Decrypts the two blocks of the encrypted key value with `key`, in CBC
    /// mode with the password salt as IV.
    fn decrypt_aes_cbc(&self, key: &[u8]) -> (r: Result<Vec<u8>, DecryptError>)
        requires
            key@.len() == 32,
            self@.password_salt.len() == 16,
            self@.encrypted_key_value.len() == 32,
        ensures
            r matches Ok(plaintext) && plaintext@ == cbc_decrypt(
                key@,
                self@.password_salt,
                self@.encrypted_key_value,
            ),
    {
        match aes256_cbc_decrypt_two_blocks(
            key,
            self.password_salt.as_slice(),
            self.encrypted_key_value.as_slice(),
        ) {
            Ok(plaintext) => Ok(plaintext),
            Err(_) => Err(DecryptError::Unknown),
        }
    }
}

// ---------------------------------------------------------------------------
// Package decryption
// ---------------------------------------------------------------------------

/// The length of the segments that the package is encrypted in.
pub const SEGMENT_LENGTH: usize = 4096;

/// Bytes `start .. end` of the stream, cut at its end.
pub open spec fn stream_range(stream: Seq<u8>, start: int, end: int) -> Seq<u8> {
    let len = stream.len() as int;
    let s = if start < len {
        start
    } else {
        len
    };
    let e = if end < len {
        end
    } else {
        len
    };
    stream.subrange(s, e)
}

/// `n` zero bytes.
pub open spec fn zeros(n: int) -> Seq<u8> {
    Seq::new(n as nat, |_i: int| 0u8)
}

/// The IV of segment `index`: the first 16 bytes of the SHA-512 digest of the
/// key-data salt followed by the little-endian bytes of `index`.
pub open spec fn segment_iv(salt: Seq<u8>, index: u32) -> Seq<u8> {
    sha512(salt + le32(index)).take(16)
}

/// The number of whole segments decrypted before the last one, for a package
/// of `total` bytes: every segment but the last, which holds the remaining 1 to
/// 4096 bytes.
pub open spec fn whole_segment_count(total: int) -> int {
    if total == 0 {
        0
    } else {
        (total - 1) / 4096
    }
}

/// The stream bytes of whole segment `k`.
pub open spec fn segment_ciphertext(stream: Seq<u8>, k: int) -> Seq<u8> {
    stream_range(stream, 8 + 4096 * k, 8 + 4096 * k + 4096)
}

/// The message of the error that a segment that is not a whole number of
/// blocks gives.
pub open spec fn segment_error_message() -> Seq<char> {
    "AgileEncryption: decrypt: SHA512: cbc_cipher.decrypt: "@ + "Unpad Error"@
}

/// The decryption of the first `k` whole segments: each is decrypted in CBC
/// mode with its own IV and filled up with zeros to the segment length when the
/// stream ends early; fails when a segment is not a whole number of blocks.
pub open spec fn decrypted_segments(salt: Seq<u8>, key: Seq<u8>, stream: Seq<u8>, k: nat) -> Result<Seq<u8>, Seq<char>>
    decreases k,
{
    if k == 0 {
        Ok(Seq::empty())
    } else {
        match decrypted_segments(salt, key, stream, (k - 1) as nat) {
            Err(m) => Err(m),
            Ok(prefix) => {
                let c = segment_ciphertext(stream, k - 1);
                if c.len() % 16 != 0 {
                    Err(segment_error_message())
                } else {
                    Ok(prefix + cbc_decrypt(key, segment_iv(salt, (k - 1) as u32), c) + zeros(
                        4096 - c.len(),
                    ))
                }
            },
        }
    }
}

/// The stream bytes of the last segment, which starts after `k` whole segments
/// and runs to the end of the stream.
pub open spec fn final_ciphertext(stream: Seq<u8>, k: int) -> Seq<u8> {
    stream_range(stream, 8 + 4096 * k, stream.len() as int)
}

/// How many decrypted bytes of the last segment are kept, when the package has
/// `remaining` bytes left: all but the unused end of the last block.
pub open spec fn final_copy_len(ciphertext_len: int, remaining: int) -> int {
    if remaining % 16 == 0 {
        ciphertext_len
    } else {
        ciphertext_len - 16 + remaining % 16
    }
}

/// The decryption of the last segment, filled up with zeros to the package
/// size; fails when its ciphertext is not a whole number of blocks.
pub open spec fn decrypted_tail(salt: Seq<u8>, key: Seq<u8>, stream: Seq<u8>, total: int, k: int) -> Result<Seq<u8>, Seq<char>> {
    let c = final_ciphertext(stream, k);
    let remaining = total - 4096 * k;
    if c.len() % 16 != 0 {
        Err("AgileEncryption: decrypt: SHA512: remaining block size"@)
    } else {
        let copy = final_copy_len(c.len() as int, remaining);
        Ok(cbc_decrypt(key, segment_iv(salt, k as u32), c).take(copy) + zeros(remaining - copy))
    }
}

/// The decrypted package: the size field gives its length, the whole segments
/// come first, then the last one; or the message of the error.
pub open spec fn decrypted_package(info: InfoView, key: Seq<u8>, stream: Seq<u8>) -> Result<Seq<u8>, Seq<char>> {
    let total = le32_value(stream);
    let k = whole_segment_count(total);
    match decrypted_segments(info.key_data_salt, key, stream, k as nat) {
        Err(m) => Err(m),
        Ok(prefix) => match decrypted_tail(info.key_data_salt, key, stream, total, k) {
            Err(m) => Err(m),
            Ok(tail) => Ok(prefix + tail),
        },
    }
}

/// What decrypting the stream with SHA-512 needs: a 32-byte key, and, when the
/// whole segments decrypt and the last ciphertext is a whole number of blocks,
/// a last ciphertext of at least one block whose kept bytes fit in the package.
pub open spec fn decrypt_defined(info: InfoView, key: Seq<u8>, stream: Seq<u8>) -> bool {
    (stream.len() >= 4 && is_sha512(info.key_data_hash_algorithm)) ==> {
        let total = le32_value(stream);
        let k = whole_segment_count(total);
        let c = final_ciphertext(stream, k);
        &&& key.len() == 32
        &&& (decrypted_segments(info.key_data_salt, key, stream, k as nat) is Ok && c.len() % 16
            == 0) ==> (c.len() >= 16 && final_copy_len(c.len() as int, total - 4096 * k) <= total
            - 4096 * k)
    }
}

proof fn lemma_decrypted_segments_fail_later(salt: Seq<u8>, key: Seq<u8>, stream: Seq<u8>, k: nat, m: nat)
    requires
        k <= m,
        decrypted_segments(salt, key, stream, k) is Err,
    ensures
        decrypted_segments(salt, key, stream, m) == decrypted_segments(salt, key, stream, k),
    decreases m - k,
{
    if k < m {
        lemma_decrypted_segments_fail_later(salt, key, stream, k, (m - 1) as nat);
    }
}

/// The IV of segment `index` is the first 16 bytes of the SHA-512 digest of
/// the key-data salt followed by four bytes that read, little-endian, as
/// `index` (over the whole range of `u32`).
pub proof fn law_segment_iv_names_its_segment(salt: Seq<u8>, index: u32)
    ensures
        exists|counter: Seq<u8>|
            #![trigger le32_value(counter)]
            counter.len() == 4 && le32_value(counter) == index && segment_iv(salt, index) == sha512(
                salt + counter,
            ).take(16),
{
    law_le32_reads_back(index);
    assert(le32_value(le32(index)) == index);
}

/// The IV of segment `index`.
fn segment_iv_bytes(salt: &[u8], index: u32) -> (iv: Vec<u8>)
    ensures
        iv@ == segment_iv(salt@, index),
        iv@.len() == 16,
{
    let counter = u32_to_le_bytes(index);
    let input = concat_bytes(salt, counter.as_slice());
    let digest = sha512_digest(input.as_slice());
    vstd::slice::slice_to_vec(vstd::slice::slice_subrange(digest.as_slice(), 0, 16))
}

/// Bytes `start .. end` of the stream, cut at its end.
fn stream_range_of(stream: &[u8], start: usize, end: usize) -> (r: &[u8])
    requires
        start <= end || end >= stream@.len(),
    ensures
        r@ == stream_range(stream@, start as int, end as int),
{
    let len = stream.len();
    let s = if start < len {
        start
    } else {
        len
    };
    let e = if end < len {
        end
    } else {
        len
    };
    vstd::slice::slice_subrange(stream, s, e)
}

/// The decryption of whole segment `j`, filled up to the segment length.
pub open spec fn decrypted_segment(salt: Seq<u8>, key: Seq<u8>, stream: Seq<u8>, j: int) -> Seq<u8> {
    let c = segment_ciphertext(stream, j);
    cbc_decrypt(key, segment_iv(salt, j as u32), c) + zeros(4096 - c.len())
}

/// The decrypted whole segments lie one after the other, each 4096 bytes long.
proof fn lemma_decrypted_segments_layout(salt: Seq<u8>, key: Seq<u8>, stream: Seq<u8>, k: nat)
    requires
        decrypted_segments(salt, key, stream, k) is Ok,
    ensures
        ({
            let p = decrypted_segments(salt, key, stream, k)->Ok_0;
            &&& p.len() == 4096 * k
            &&& forall|j: int|
                0 <= j < k ==> #[trigger] p.subrange(4096 * j, 4096 * j + 4096) == decrypted_segment(
                    salt,
                    key,
                    stream,
                    j,
                )
        }),
    decreases k,
{
    if k > 0 {
        let k1 = (k - 1) as nat;
        lemma_decrypted_segments_layout(salt, key, stream, k1);
        let prefix = decrypted_segments(salt, key, stream, k1)->Ok_0;
        let p = decrypted_segments(salt, key, stream, k)->Ok_0;
        let block = decrypted_segment(salt, key, stream, k1 as int);
        assert(segment_ciphertext(stream, k1 as int).len() <= 4096);
        assert(p =~= prefix + block);
        assert forall|j: int| 0 <= j < k implies #[trigger] p.subrange(4096 * j, 4096 * j + 4096)
            == decrypted_segment(salt, key, stream, j) by {
            if j < k1 {
                assert(p.subrange(4096 * j, 4096 * j + 4096) =~= prefix.subrange(4096 * j, 4096 * j + 4096));
            } else {
                assert(p.subrange(4096 * j, 4096 * j + 4096) =~= block);
            }
        }
    }
}

/// Each whole segment of the package is decrypted from its own ciphertext
/// segment alone: two streams that give the same package size and hold the same
/// ciphertext in segment `k` decrypt to the same bytes in that segment.
pub proof fn law_segment_decrypted_alone(info: InfoView, key: Seq<u8>, s1: Seq<u8>, s2: Seq<u8>, k: int)
    requires
        le32_value(s1) == le32_value(s2),
        0 <= k < whole_segment_count(le32_value(s1)),
        segment_ciphertext(s1, k) == segment_ciphertext(s2, k),
        decrypted_package(info, key, s1) is Ok,
        decrypted_package(info, key, s2) is Ok,
    ensures
        decrypted_package(info, key, s1)->Ok_0.subrange(4096 * k, 4096 * k + 4096)
            == decrypted_package(info, key, s2)->Ok_0.subrange(4096 * k, 4096 * k + 4096),
{
    let n = whole_segment_count(le32_value(s1)) as nat;
    let salt = info.key_data_salt;
    lemma_decrypted_segments_layout(salt, key, s1, n);
    lemma_decrypted_segments_layout(salt, key, s2, n);
    let p1 = decrypted_segments(salt, key, s1, n)->Ok_0;
    let p2 = decrypted_segments(salt, key, s2, n)->Ok_0;
    let whole1 = decrypted_package(info, key, s1)->Ok_0;
    let whole2 = decrypted_package(info, key, s2)->Ok_0;
    assert(p1.subrange(4096 * k, 4096 * k + 4096) == decrypted_segment(salt, key, s1, k));
    assert(p2.subrange(4096 * k, 4096 * k + 4096) == decrypted_segment(salt, key, s2, k));
    assert(whole1.subrange(4096 * k, 4096 * k + 4096) =~= p1.subrange(4096 * k, 4096 * k + 4096));
    assert(whole2.subrange(4096 * k, 4096 * k + 4096) =~= p2.subrange(4096 * k, 4096 * k + 4096));
}

/// The whole segments decrypt exactly when each of them is a whole number of blocks.
proof fn lemma_decrypted_segments_ok(salt: Seq<u8>, key: Seq<u8>, stream: Seq<u8>, k: nat)
    ensures
        decrypted_segments(salt, key, stream, k) is Ok <==> forall|j: int|
            0 <= j < k ==> #[trigger] segment_ciphertext(stream, j).len() % 16 == 0,
    decreases k,
{
    if k > 0 {
        lemma_decrypted_segments_ok(salt, key, stream, (k - 1) as nat);
    }
}

impl AgileEncryptionInfo {
    /// Whether deriving a file key from these parameters is defined.
    pub fn key_derivation_is_defined(&self) -> (b: bool)
        ensures
            b == self.key_derivation_defined(),
    {
        match hash_choice(&self.password_hash_algorithm) {
            HashChoice::Sha512 => self.password_key_bits / 8 == 32 && self.password_salt.len() == 16
                && self.encrypted_key_value.len() == 32,
            _ => true,
        }
    }

    /// Whether decrypting `encrypted_stream` with `key` is defined.
    pub fn decrypt_is_defined(&self, key: &[u8], encrypted_stream: &[u8]) -> (b: bool)
        ensures
            b == self.decrypt_defined(key@, encrypted_stream@),
    {
        if encrypted_stream.len() < 4 {
            return true;
        }
        match hash_choice(&self.key_data_hash_algorithm) {
            HashChoice::Sha512 => {},
            _ => return true,
        }
        let total = u32_from_le_bytes(encrypted_stream) as usize;
        if key.len() != 32 {
            return false;
        }
        let ghost salt = self@.key_data_salt;
        let ghost k_total = whole_segment_count(total as int);
        let len = encrypted_stream.len();
        let mut block_start: usize = 8;
        let mut block_index: u32 = 0;
        while total > SEGMENT_LENGTH && block_start - 8 < total - SEGMENT_LENGTH
            invariant
                len == encrypted_stream@.len(),
                total == le32_value(encrypted_stream@),
                total <= u32::MAX,
                k_total == whole_segment_count(total as int),
                key@.len() == 32,
                salt == self@.key_data_salt,
                block_start == 8 + 4096 * block_index,
                block_index <= k_total,
                forall|j: int|
                    0 <= j < block_index ==> #[trigger] segment_ciphertext(encrypted_stream@, j).len()
                        % 16 == 0,
            decreases total + 8 - block_start,
        {
            let segment = stream_range_of(encrypted_stream, block_start, block_start + SEGMENT_LENGTH);
            if segment.len() % 16 != 0 {
                proof {
                    assert(block_index < k_total);
                    lemma_decrypted_segments_ok(salt, key@, encrypted_stream@, k_total as nat);
                    assert(segment_ciphertext(encrypted_stream@, block_index as int).len() % 16 != 0);
                }
                return true;
            }
            block_index = block_index + 1;
            block_start = block_start + SEGMENT_LENGTH;
        }
        proof {
            lemma_decrypted_segments_ok(salt, key@, encrypted_stream@, k_total as nat);
        }
        let remaining = total - (block_start - 8);
        let ciphertext_len = stream_range_of(encrypted_stream, block_start, len).len();
        if ciphertext_len % 16 != 0 {
            return true;
        }
        if ciphertext_len < 16 {
            return false;
        }
        let copy_span = if remaining % 16 == 0 {
            ciphertext_len
        } else {
            ciphertext_len - 16 + remaining % 16
        };
        copy_span <= remaining
    }

    /// Whether decrypting `stream` with `key` is defined (see [`decrypt_defined`]).
    pub open spec fn decrypt_defined(&self, key: Seq<u8>, stream: Seq<u8>) -> bool {
        decrypt_defined(self@, key, stream)
    }

    /// The decrypted package (see [`decrypted_package`]).
    pub open spec fn decrypted_package(&self, key: Seq<u8>, stream: Seq<u8>) -> Result<Seq<u8>, Seq<char>> {
        decrypted_package(self@, key, stream)
    }

    /// Whether the key-data hash algorithm is SHA-512.
    pub open spec fn key_data_hash_is_sha512(&self) -> bool {
        is_sha512(self@.key_data_hash_algorithm)
    }

    /// Whether the key-data hash algorithm is SHA-1, SHA-256 or SHA-384.
    pub open spec fn key_data_hash_is_unsupported(&self) -> bool {
        is_unsupported_hash(self@.key_data_hash_algorithm)
    }

    /// Decrypts the encrypted package stream with the file key `key`.
    ///
    /// The stream starts with the package size (four little-endian bytes) and
    /// four unused bytes; the ciphertext follows in segments of 4096 bytes,
    /// segment `i` being encrypted in CBC mode with an IV derived from the
    /// key-data salt and `i`; the last segment holds the remaining 1 to 4096
    /// bytes of the package. The result has exactly the package size. A
    /// stream shorter than the size field, or a segment that is not a whole
    /// number of blocks, fails with `InvalidStructure`. Only SHA-512 is
    /// supported as the key-data hash algorithm; SHA-1, SHA-256 and SHA-384
    /// fail with `Unimplemented`, any other algorithm with `InvalidStructure`.
    pub fn decrypt(&self, key: &[u8], encrypted_stream: &[u8]) -> (r: Result<Vec<u8>, DecryptError>)
        requires
            self.decrypt_defined(key@, encrypted_stream@),
        ensures
            encrypted_stream@.len() < 4 ==> (r matches Err(DecryptError::InvalidStructure(m)) && m@
                == "AgileEncryption: decrypt: encrypted_steam.read_exact(4): failed to fill whole buffer"@),
            encrypted_stream@.len() >= 4 && self.key_data_hash_is_sha512() ==> match self.decrypted_package(
                key@,
                encrypted_stream@,
            ) {
                Ok(package) => r matches Ok(v) && v@ == package && v@.len() == le32_value(
                    encrypted_stream@,
                ),
                Err(message) => r matches Err(DecryptError::InvalidStructure(m)) && m@ == message,
            },
            encrypted_stream@.len() >= 4 && !self.key_data_hash_is_sha512()
                && self.key_data_hash_is_unsupported() ==> (r matches Err(DecryptError::Unimplemented(m))
                && m@ == "AgileEncryption: key_data_hash_algorithm: "@ + self@.password_hash_algorithm),
            encrypted_stream@.len() >= 4 && !self.key_data_hash_is_sha512()
                && !self.key_data_hash_is_unsupported() ==> (r matches Err(
                DecryptError::InvalidStructure(m),
            ) && m@ == "AgileEncryption: unrecognised key data hash algorithm"@),
    {
        if encrypted_stream.len() < 4 {
            return Err(
                DecryptError::InvalidStructure(
                    String::from_str(
                        "AgileEncryption: decrypt: encrypted_steam.read_exact(4): failed to fill whole buffer",
                    ),
                ),
            );
        }
        let total = u32_from_le_bytes(encrypted_stream) as usize;
        match hash_choice(&self.key_data_hash_algorithm) {
            HashChoice::Sha512 => self.decrypt_segments(key, encrypted_stream, total),
            HashChoice::Unsupported => Err(
                unimplemented(
                    "AgileEncryption: key_data_hash_algorithm: ",
                    self.password_hash_algorithm.as_str(),
                ),
            ),
            HashChoice::Unknown => Err(
                DecryptError::InvalidStructure(
                    String::from_str("AgileEncryption: unrecognised key data hash algorithm"),
                ),
            ),
        }
    }

    /// The SHA-512 case of [`AgileEncryptionInfo::decrypt`].
    fn decrypt_segments(&self, key: &[u8], stream: &[u8], total: usize) -> (r: Result<Vec<u8>, DecryptError>)
        requires
            stream@.len() >= 4,
            is_sha512(self@.key_data_hash_algorithm),
            total == le32_value(stream@),
            decrypt_defined(self@, key@, stream@),
        ensures
            match decrypted_package(self@, key@, stream@) {
                Ok(package) => r matches Ok(v) && v@ == package && v@.len() == total,
                Err(message) => r matches Err(DecryptError::InvalidStructure(m)) && m@ == message,
            },
    {
        let ghost salt = self@.key_data_salt;
        let ghost k_total = whole_segment_count(total as int);
        let len = stream.len();
        let mut out: Vec<u8> = Vec::new();
        let mut block_start: usize = 8;
        let mut block_index: u32 = 0;
        while total > SEGMENT_LENGTH && block_start - 8 < total - SEGMENT_LENGTH
            invariant
                len == stream@.len(),
                total == le32_value(stream@),
                total <= u32::MAX,
                key@.len() == 32,
                salt == self@.key_data_salt,
                k_total == whole_segment_count(total as int),
                block_start == 8 + 4096 * block_index,
                block_index <= k_total,
                decrypted_segments(salt, key@, stream@, block_index as nat) == Ok::<Seq<u8>, Seq<char>>(
                    out@,
                ),
                out@.len() == 4096 * block_index,
            decreases total + 8 - block_start,
        {
            let iv = segment_iv_bytes(self.key_data_salt.as_slice(), block_index);
            let segment = stream_range_of(stream, block_start, block_start + SEGMENT_LENGTH);
            match aes256_cbc_decrypt(key, iv.as_slice(), segment) {
                Err(message) => {
                    proof {
                        lemma_decrypted_segments_fail_later(
                            salt,
                            key@,
                            stream@,
                            (block_index + 1) as nat,
                            k_total as nat,
                        );
                    }
                    return Err(
                        invalid_structure(
                            "AgileEncryption: decrypt: SHA512: cbc_cipher.decrypt: ",
                            message.as_str(),
                        ),
                    );
                },
                Ok(plaintext) => {
                    append_bytes(&mut out, plaintext.as_slice());
                    append_zeros(&mut out, SEGMENT_LENGTH - segment.len());
                },
            }
            block_index = block_index + 1;
            block_start = block_start + SEGMENT_LENGTH;
        }
        assert(block_index == k_total);
        // the last segment, which holds the remaining 1 to 4096 bytes of the package
        let remaining = total - (block_start - 8);
        let iv = segment_iv_bytes(self.key_data_salt.as_slice(), block_index);
        let irregular_block_len = remaining % 16;
        let ciphertext = stream_range_of(stream, block_start, len);
        if ciphertext.len() % 16 != 0 {
            return Err(
                DecryptError::InvalidStructure(
                    String::from_str("AgileEncryption: decrypt: SHA512: remaining block size"),
                ),
            );
        }
        let plaintext = match aes256_cbc_decrypt(key, iv.as_slice(), ciphertext) {
            Ok(plaintext) => plaintext,
            Err(message) => {
                return Err(
                    invalid_structure(
                        "AgileEncryption: decrypt: SHA512: cbc_cipher.decrypt(remaining): ",
                        message.as_str(),
                    ),
                );
            },
        };
        let mut copy_span = plaintext.len() - 16 + irregular_block_len;
        if irregular_block_len == 0 {
            copy_span = copy_span + 16;
        }
        append_bytes(&mut out, vstd::slice::slice_subrange(plaintext.as_slice(), 0, copy_span));
        append_zeros(&mut out, remaining - copy_span);
        Ok(out)
    }
}

} // verus!
