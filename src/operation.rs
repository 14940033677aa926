use crate::error::{ErrorKind, ParseError};
use crate::chars::{append_string, dec_nat, eq_label, str_chars, string_of};
use vstd::prelude::*;
use vstd::string::*;

verus! {

/// The kind of a financial operation.
#[derive(Debug, Clone, Copy, PartialEq, Eq, Structural)]
pub enum OperationType {
    Deposit,
    Transfer,
    Withdrawal,
}

/// The outcome of a financial operation.
#[derive(Debug, Clone, Copy, PartialEq, Eq, Structural)]
pub enum OperationStatus {
    Success,
    Failure,
    Pending,
}

impl OperationType {
    pub open spec fn label(self) -> Seq<char> {
        match self {
            OperationType::Deposit => "DEPOSIT"@,
            OperationType::Transfer => "TRANSFER"@,
            OperationType::Withdrawal => "WITHDRAWAL"@,
        }
    }

    pub open spec fn ordinal(self) -> u8 {
        match self {
            OperationType::Deposit => 0,
            OperationType::Transfer => 1,
            OperationType::Withdrawal => 2,
        }
    }

    /// The kind whose label is `s`, if any.
    pub open spec fn from_label(s: Seq<char>) -> Option<OperationType> {
        if s == "DEPOSIT"@ {
            Some(OperationType::Deposit)
        } else if s == "TRANSFER"@ {
            Some(OperationType::Transfer)
        } else if s == "WITHDRAWAL"@ {
            Some(OperationType::Withdrawal)
        } else {
            None
        }
    }

    /// The kind whose ordinal is `v`, if any.
    pub open spec fn from_ordinal(v: u8) -> Option<OperationType> {
        if v == 0 {
            Some(OperationType::Deposit)
        } else if v == 1 {
            Some(OperationType::Transfer)
        } else if v == 2 {
            Some(OperationType::Withdrawal)
        } else {
            None
        }
    }

    /// Reads a kind from the characters `cs[lo..hi]`.
    pub fn from_chars(cs: &[char], lo: usize, hi: usize) -> (r: Result<OperationType, ParseError>)
        requires
            lo <= hi <= cs@.len(),
        ensures
            r matches Ok(k) ==> Self::from_label(cs@.subrange(lo as int, hi as int)) == Some(k),
            r is Err ==> Self::from_label(cs@.subrange(lo as int, hi as int)) is None
                && r->Err_0@ == ErrorKind::Field("TX_TYPE"@) && (r->Err_0 matches ParseError::InvalidField {
                reason,
                ..
            } && reason@ == "Unknown transaction type: "@ + cs@.subrange(lo as int, hi as int)),
    {
        if eq_label(cs, lo, hi, "DEPOSIT") {
            Ok(OperationType::Deposit)
        } else if eq_label(cs, lo, hi, "TRANSFER") {
            Ok(OperationType::Transfer)
        } else if eq_label(cs, lo, hi, "WITHDRAWAL") {
            Ok(OperationType::Withdrawal)
        } else {
            let mut reason = String::from_str("Unknown transaction type: ");
            append_string(&mut reason, &string_of(cs, lo, hi));
            Err(ParseError::field("TX_TYPE", reason))
        }
    }

    /// Reads a kind from its label.
    pub fn from_str(s: &str) -> (r: Result<OperationType, ParseError>)
        ensures
            r matches Ok(k) ==> Self::from_label(s@) == Some(k),
            r is Err ==> Self::from_label(s@) is None && r->Err_0@ == ErrorKind::Field("TX_TYPE"@)
                && (r->Err_0 matches ParseError::InvalidField { reason, .. } && reason@
                == "Unknown transaction type: "@ + s@),
    {
        let cs = str_chars(s);
        let r = Self::from_chars(cs.as_slice(), 0, cs.len());
        assert(cs@.subrange(0, cs@.len() as int) == s@);
        r
    }

    /// Reads a kind from its ordinal byte.
    pub fn from_u8(value: u8) -> (r: Result<OperationType, ParseError>)
        ensures
            r matches Ok(k) ==> Self::from_ordinal(value) == Some(k),
            r is Err ==> Self::from_ordinal(value) is None && r->Err_0@ == ErrorKind::Field("TX_TYPE"@)
                && (r->Err_0 matches ParseError::InvalidField { reason, .. } && reason@
                == "Unknown transaction type value: "@ + dec_nat(value as nat)),
    {
        match value {
            0 => Ok(OperationType::Deposit),
            1 => Ok(OperationType::Transfer),
            2 => Ok(OperationType::Withdrawal),
            _ => {
                let mut reason = String::from_str("Unknown transaction type value: ");
                crate::chars::append_u64(&mut reason, value as u64);
                Err(ParseError::field("TX_TYPE", reason))
            },
        }
    }

    pub fn to_u8(&self) -> (r: u8)
        ensures
            r == self.ordinal(),
    {
        match self {
            OperationType::Deposit => 0,
            OperationType::Transfer => 1,
            OperationType::Withdrawal => 2,
        }
    }

    pub fn as_str(&self) -> (r: &'static str)
        ensures
            r@ == self.label(),
    {
        match self {
            OperationType::Deposit => "DEPOSIT",
            OperationType::Transfer => "TRANSFER",
            OperationType::Withdrawal => "WITHDRAWAL",
        }
    }
}

impl OperationStatus {
    pub open spec fn label(self) -> Seq<char> {
        match self {
            OperationStatus::Success => "SUCCESS"@,
            OperationStatus::Failure => "FAILURE"@,
            OperationStatus::Pending => "PENDING"@,
        }
    }

    pub open spec fn ordinal(self) -> u8 {
        match self {
            OperationStatus::Success => 0,
            OperationStatus::Failure => 1,
            OperationStatus::Pending => 2,
        }
    }

    /// The outcome whose label is `s`, if any.
    pub open spec fn from_label(s: Seq<char>) -> Option<OperationStatus> {
        if s == "SUCCESS"@ {
            Some(OperationStatus::Success)
        } else if s == "FAILURE"@ {
            Some(OperationStatus::Failure)
        } else if s == "PENDING"@ {
            Some(OperationStatus::Pending)
        } else {
            None
        }
    }

    /// The outcome whose ordinal is `v`, if any.
    pub open spec fn from_ordinal(v: u8) -> Option<OperationStatus> {
        if v == 0 {
            Some(OperationStatus::Success)
        } else if v == 1 {
            Some(OperationStatus::Failure)
        } else if v == 2 {
            Some(OperationStatus::Pending)
        } else {
            None
        }
    }

    /// Reads an outcome from the characters `cs[lo..hi]`.
    pub fn from_chars(cs: &[char], lo: usize, hi: usize) -> (r: Result<OperationStatus, ParseError>)
        requires
            lo <= hi <= cs@.len(),
        ensures
            r matches Ok(k) ==> Self::from_label(cs@.subrange(lo as int, hi as int)) == Some(k),
            r is Err ==> Self::from_label(cs@.subrange(lo as int, hi as int)) is None
                && r->Err_0@ == ErrorKind::Field("STATUS"@) && (r->Err_0 matches ParseError::InvalidField {
                reason,
                ..
            } && reason@ == "Unknown status: "@ + cs@.subrange(lo as int, hi as int)),
    {
        if eq_label(cs, lo, hi, "SUCCESS") {
            Ok(OperationStatus::Success)
        } else if eq_label(cs, lo, hi, "FAILURE") {
            Ok(OperationStatus::Failure)
        } else if eq_label(cs, lo, hi, "PENDING") {
            Ok(OperationStatus::Pending)
        } else {
            let mut reason = String::from_str("Unknown status: ");
            append_string(&mut reason, &string_of(cs, lo, hi));
            Err(ParseError::field("STATUS", reason))
        }
    }

    /// Reads an outcome from its label.
    pub fn from_str(s: &str) -> (r: Result<OperationStatus, ParseError>)
        ensures
            r matches Ok(k) ==> Self::from_label(s@) == Some(k),
            r is Err ==> Self::from_label(s@) is None && r->Err_0@ == ErrorKind::Field("STATUS"@)
                && (r->Err_0 matches ParseError::InvalidField { reason, .. } && reason@
                == "Unknown status: "@ + s@),
    {
        let cs = str_chars(s);
        let r = Self::from_chars(cs.as_slice(), 0, cs.len());
        assert(cs@.subrange(0, cs@.len() as int) == s@);
        r
    }

    /// Reads an outcome from its ordinal byte.
    pub fn from_u8(value: u8) -> (r: Result<OperationStatus, ParseError>)
        ensures
            r matches Ok(k) ==> Self::from_ordinal(value) == Some(k),
            r is Err ==> Self::from_ordinal(value) is None && r->Err_0@ == ErrorKind::Field("STATUS"@)
                && (r->Err_0 matches ParseError::InvalidField { reason, .. } && reason@
                == "Unknown status value: "@ + dec_nat(value as nat)),
    {
        match value {
            0 => Ok(OperationStatus::Success),
            1 => Ok(OperationStatus::Failure),
            2 => Ok(OperationStatus::Pending),
            _ => {
                let mut reason = String::from_str("Unknown status value: ");
                crate::chars::append_u64(&mut reason, value as u64);
                Err(ParseError::field("STATUS", reason))
            },
        }
    }

    pub fn to_u8(&self) -> (r: u8)
        ensures
            r == self.ordinal(),
    {
        match self {
            OperationStatus::Success => 0,
            OperationStatus::Failure => 1,
            OperationStatus::Pending => 2,
        }
    }

    pub fn as_str(&self) -> (r: &'static str)
        ensures
            r@ == self.label(),
    {
        match self {
            OperationStatus::Success => "SUCCESS",
            OperationStatus::Failure => "FAILURE",
            OperationStatus::Pending => "PENDING",
        }
    }
}

/// Reading a kind's label, or its ordinal, gives the kind; a label is a word of capital
/// letters.
pub proof fn lemma_type_label(k: OperationType)
    ensures
        OperationType::from_label(k.label()) == Some(k),
        OperationType::from_ordinal(k.ordinal()) == Some(k),
        k.label().len() > 0,
        forall|j: int|
            0 <= j < k.label().len() ==> 65 <= #[trigger] k.label()[j] as u32 <= 90,
{
    reveal_strlit("DEPOSIT");
    reveal_strlit("TRANSFER");
    reveal_strlit("WITHDRAWAL");
    assert("DEPOSIT"@.len() == 7 && "TRANSFER"@.len() == 8 && "WITHDRAWAL"@.len() == 10);
}

/// Reading an outcome's label, or its ordinal, gives the outcome; a label is a word of
/// capital letters.
pub proof fn lemma_status_label(k: OperationStatus)
    ensures
        OperationStatus::from_label(k.label()) == Some(k),
        OperationStatus::from_ordinal(k.ordinal()) == Some(k),
        k.label().len() > 0,
        forall|j: int|
            0 <= j < k.label().len() ==> 65 <= #[trigger] k.label()[j] as u32 <= 90,
{
    reveal_strlit("SUCCESS");
    reveal_strlit("FAILURE");
    reveal_strlit("PENDING");
    assert("SUCCESS"@[0] == 'S' && "FAILURE"@[0] == 'F' && "PENDING"@[0] == 'P');
}

/// One financial operation record. Two records are equal when their `tx_id`s are.
#[derive(Debug, Clone)]
pub struct Operation {
    pub tx_id: u64,
    pub tx_type: OperationType,
    pub from_user_id: u64,
    pub to_user_id: u64,
    pub amount: i64,
    pub timestamp: u64,
    pub status: OperationStatus,
    pub description: String,
}

/// The mathematical value of an `Operation`: every field, the description as characters.
pub ghost struct OpView {
    pub tx_id: u64,
    pub tx_type: OperationType,
    pub from_user_id: u64,
    pub to_user_id: u64,
    pub amount: i64,
    pub timestamp: u64,
    pub status: OperationStatus,
    pub description: Seq<char>,
}

impl View for Operation {
    type V = OpView;

    open spec fn view(&self) -> OpView {
        OpView {
            tx_id: self.tx_id,
            tx_type: self.tx_type,
            from_user_id: self.from_user_id,
            to_user_id: self.to_user_id,
            amount: self.amount,
            timestamp: self.timestamp,
            status: self.status,
            description: self.description@,
        }
    }
}

impl OpView {
    /// The identifier rule: a deposit comes from no user, a withdrawal goes to no user,
    /// a transfer names both users.
    pub open spec fn valid(self) -> bool {
        match self.tx_type {
            OperationType::Deposit => self.from_user_id == 0,
            OperationType::Withdrawal => self.to_user_id == 0,
            OperationType::Transfer => self.from_user_id != 0 && self.to_user_id != 0,
        }
    }

    /// The field named when the identifier rule is broken.
    pub open spec fn invalid_field(self) -> Seq<char> {
        match self.tx_type {
            OperationType::Deposit => "FROM_USER_ID"@,
            OperationType::Withdrawal => "TO_USER_ID"@,
            OperationType::Transfer => "FROM_USER_ID/TO_USER_ID"@,
        }
    }

    /// Why the identifier rule is broken, in words.
    pub open spec fn invalid_reason(self) -> Seq<char> {
        match self.tx_type {
            OperationType::Deposit => "Must be 0 for DEPOSIT"@,
            OperationType::Withdrawal => "Must be 0 for WITHDRAWAL"@,
            OperationType::Transfer => "Cannot be 0 for TRANSFER"@,
        }
    }

    /// What validation yields: nothing when valid, else the error kind naming the field.
    pub open spec fn check(self) -> Option<ErrorKind> {
        if self.valid() {
            None
        } else {
            Some(ErrorKind::Field(self.invalid_field()))
        }
    }
}

impl Operation {
    /// Checks the identifier rule.
    pub fn validate(&self) -> (r: Result<(), ParseError>)
        ensures
            r is Ok <==> self@.valid(),
            r is Err ==> r->Err_0@ == ErrorKind::Field(self@.invalid_field()),
            r is Err ==> (r->Err_0 matches ParseError::InvalidField { reason, .. } && reason@
                == self@.invalid_reason() && reason@.len() > 0),
    {
        proof {
            reveal_strlit("Must be 0 for DEPOSIT");
            reveal_strlit("Must be 0 for WITHDRAWAL");
            reveal_strlit("Cannot be 0 for TRANSFER");
        }
        match self.tx_type {
            OperationType::Deposit => {
                if self.from_user_id != 0 {
                    return Err(
                        ParseError::field("FROM_USER_ID", String::from_str("Must be 0 for DEPOSIT")),
                    );
                }
            },
            OperationType::Withdrawal => {
                if self.to_user_id != 0 {
                    return Err(
                        ParseError::field("TO_USER_ID", String::from_str("Must be 0 for WITHDRAWAL")),
                    );
                }
            },
            OperationType::Transfer => {
                if self.from_user_id == 0 || self.to_user_id == 0 {
                    return Err(
                        ParseError::field(
                            "FROM_USER_ID/TO_USER_ID",
                            String::from_str("Cannot be 0 for TRANSFER"),
                        ),
                    );
                }
            },
        }
        Ok(())
    }
}

impl PartialEq for Operation {
    fn eq(&self, other: &Operation) -> (r: bool) {
        self.tx_id == other.tx_id
    }
}

impl Eq for Operation {

}

impl vstd::std_specs::cmp::PartialEqSpecImpl for Operation {
    open spec fn obeys_eq_spec() -> bool {
        true
    }

    open spec fn eq_spec(&self, other: &Operation) -> bool {
        self.tx_id == other.tx_id
    }
}

} // verus!
