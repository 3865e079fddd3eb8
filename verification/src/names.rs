//! Names in the IR: errors of the IR builder, method and variant names,
//! and the discriminants of enum variants.
use unicode_normalization::UnicodeNormalization;
use vstd::prelude::*;
use vstd::string::StringSliceAdditionalSpecFns;

use crate::text::push_str;

verus! {

/// An error found while building IR.
#[derive(Debug, Clone)]
pub struct IrError {
    pub message: String,
}

impl IrError {
    pub fn new(message: String) -> (r: Self)
        ensures
            r.message@ == message@,
    {
        IrError { message }
    }

    /// The message of the error.
    pub fn to_string(&self) -> (r: String)
        ensures
            r@ == self.message@,
    {
        self.message.clone()
    }
}

/// The message for a member missing from a class layout and from all its
/// ancestors, in Arabic and in English.
pub open spec fn unknown_member_text(class: Seq<char>, member: Seq<char>) -> Seq<char> {
    "العضو '"@ + member + "' غير موجود في تخطيط الصنف '"@ + class + "' ولا في أي من أصوله / member '"@ + member
        + "' is missing from the layout of class '"@ + class + "' and all of its ancestors"@
}

/// The error for a member missing from the layout of `class` and of all
/// its ancestors.
pub fn unknown_member_error(class: &str, member: &str) -> (r: IrError)
    ensures
        r.message@ == unknown_member_text(class@, member@),
{
    let mut m = String::new();
    push_str(&mut m, "العضو '");
    push_str(&mut m, member);
    push_str(&mut m, "' غير موجود في تخطيط الصنف '");
    push_str(&mut m, class);
    push_str(&mut m, "' ولا في أي من أصوله / member '");
    push_str(&mut m, member);
    push_str(&mut m, "' is missing from the layout of class '");
    push_str(&mut m, class);
    push_str(&mut m, "' and all of its ancestors");
    proof {
        assert(m@ =~= unknown_member_text(class@, member@));
    }
    IrError::new(m)
}

/// The message for a property that lacks the accessor an access needs: the
/// getter (`احصل`) to read it, the setter (`عيّن`) to assign to it.
pub open spec fn missing_accessor_text(class: Seq<char>, member: Seq<char>, reading: bool) -> Seq<char> {
    let accessor = if reading {
        "احصل"@
    } else {
        "عيّن"@
    };
    let ar_action = if reading {
        "قراءة"@
    } else {
        "التعيين إلى"@
    };
    let en_action = if reading {
        "read"@
    } else {
        "assign to"@
    };
    "لا يمكن "@ + ar_action + " الخاصية '"@ + member + "' في الصنف '"@ + class + "': لا تملك مُلحق '"@ + accessor
        + "' / cannot "@ + en_action + " property '"@ + member + "' on class '"@ + class + "': it declares no '"@
        + accessor + "' accessor"@
}

/// The error for reading a property without a getter (`reading`) or
/// assigning to one without a setter.
pub fn missing_accessor_error(class: &str, member: &str, reading: bool) -> (r: IrError)
    ensures
        r.message@ == missing_accessor_text(class@, member@, reading),
{
    let (accessor, ar_action, en_action) = if reading {
        ("احصل", "قراءة", "read")
    } else {
        ("عيّن", "التعيين إلى", "assign to")
    };
    let mut m = String::new();
    push_str(&mut m, "لا يمكن ");
    push_str(&mut m, ar_action);
    push_str(&mut m, " الخاصية '");
    push_str(&mut m, member);
    push_str(&mut m, "' في الصنف '");
    push_str(&mut m, class);
    push_str(&mut m, "': لا تملك مُلحق '");
    push_str(&mut m, accessor);
    push_str(&mut m, "' / cannot ");
    push_str(&mut m, en_action);
    push_str(&mut m, " property '");
    push_str(&mut m, member);
    push_str(&mut m, "' on class '");
    push_str(&mut m, class);
    push_str(&mut m, "': it declares no '");
    push_str(&mut m, accessor);
    push_str(&mut m, "' accessor");
    proof {
        assert(m@ =~= missing_accessor_text(class@, member@, reading));
    }
    IrError::new(m)
}

/// Whether `::` starts at position `i` of `s`.
pub open spec fn sep_at(s: Seq<char>, i: int) -> bool {
    0 <= i && i + 1 < s.len() && s[i] == ':' && s[i + 1] == ':'
}

/// The last position at which `::` starts among the first `n` positions.
pub open spec fn last_sep_before(s: Seq<char>, n: int) -> Option<int>
    decreases n,
{
    if n <= 0 {
        None
    } else if sep_at(s, n - 1) {
        Some(n - 1)
    } else {
        last_sep_before(s, n - 1)
    }
}

/// The part of a qualified name after its last `::` (the whole name where
/// it has none).
pub open spec fn bare_name(s: Seq<char>) -> Seq<char> {
    match last_sep_before(s, s.len() as int) {
        Some(i) => s.skip(i + 2),
        None => s,
    }
}

/// The part of a qualified method name after its last `::`.
pub fn bare_method_name(qualified: &str) -> (r: String)
    ensures
        r@ == bare_name(qualified@),
{
    let n = qualified.unicode_len();
    let mut k: usize = n;
    while k > 0
        invariant
            k <= n,
            n == qualified@.len(),
            last_sep_before(qualified@, n as int) == last_sep_before(qualified@, k as int),
        decreases k,
    {
        if k < n && qualified.get_char(k - 1) == ':' && qualified.get_char(k) == ':' {
            let rest = qualified.substring_char(k + 1, n);
            proof {
                assert(sep_at(qualified@, k - 1));
                assert(rest@ =~= qualified@.skip(k + 1));
            }
            return rest.to_owned();
        }
        k = k - 1;
    }
    qualified.to_owned()
}

/// The NFC normalization of a text (a function of the text alone).
pub uninterp spec fn nfc_of(s: Seq<char>) -> Seq<char>;

/// The NFC normalization of `s`, by `UnicodeNormalization::nfc` of the
/// `unicode-normalization` crate, collected into a string. Its contract
/// names the result and states nothing more of it.
#[verifier::external_body]
fn nfc_normalize(s: &str) -> (r: String)
    ensures
        r@ == nfc_of(s@),
{
    s.nfc().collect()
}

/// A name in NFC form, so that variant spellings of one Arabic name compare
/// equal.
pub fn normalize_name(name: &str) -> (r: String)
    ensures
        r@ == nfc_of(name@),
{
    nfc_normalize(name)
}

/// The 32-bit FNV-1a offset basis.
pub const FNV_OFFSET: u32 = 2166136261u32;

/// The 32-bit FNV-1a prime.
pub const FNV_PRIME: u32 = 16777619u32;

/// The 32-bit FNV-1a hash of a byte sequence.
pub open spec fn fnv1a_spec(bytes: Seq<u8>) -> u32
    decreases bytes.len(),
{
    if bytes.len() == 0 {
        FNV_OFFSET
    } else {
        vstd::wrapping::u32_specs::wrapping_mul(fnv1a_spec(bytes.drop_last()) ^ (bytes.last() as u32), FNV_PRIME)
    }
}

/// The 32-bit FNV-1a hash of a byte sequence.
pub fn fnv1a(bytes: &[u8]) -> (r: u32)
    ensures
        r == fnv1a_spec(bytes@),
{
    let mut hash: u32 = FNV_OFFSET;
    let mut i: usize = 0;
    while i < bytes.len()
        invariant
            i <= bytes.len(),
            hash == fnv1a_spec(bytes@.take(i as int)),
        decreases bytes.len() - i,
    {
        proof {
            assert(bytes@.take(i + 1).drop_last() =~= bytes@.take(i as int));
            assert(bytes@.take(i + 1).last() == bytes@[i as int]);
        }
        hash = hash ^ (bytes[i] as u32);
        hash = hash.wrapping_mul(FNV_PRIME);
        i = i + 1;
    }
    proof {
        assert(bytes@.take(bytes.len() as int) =~= bytes@);
    }
    hash
}

/// The discriminant of an enum variant: the 32-bit FNV-1a hash of the
/// UTF-8 bytes of its NFC-normalized name.
pub fn calculate_discriminant(variant_name: &str) -> (r: u32)
    ensures
        r == fnv1a_spec(vstd::utf8::encode_utf8(nfc_of(variant_name@))),
{
    let normalized = nfc_normalize(variant_name);
    let s = normalized.as_str();
    let bytes = s.as_bytes();
    fnv1a(bytes)
}

proof fn lemma_last_sep(s: Seq<char>, n: int)
    requires
        n <= s.len(),
    ensures
        last_sep_before(s, n) matches Some(i) ==> 0 <= i < n && sep_at(s, i) && forall|j: int| i < j < n ==> !sep_at(s, j),
        last_sep_before(s, n) is None ==> forall|j: int| 0 <= j < n ==> !sep_at(s, j),
    decreases n,
{
    if n > 0 {
        lemma_last_sep(s, n - 1);
    }
}

/// The bare name of a qualified name ends it and holds no `::`.
pub proof fn law_bare_name_is_last_part(s: Seq<char>)
    ensures
        s.len() >= bare_name(s).len(),
        bare_name(s) == s.skip(s.len() - bare_name(s).len()),
        forall|j: int| 0 <= j < bare_name(s).len() ==> !sep_at(bare_name(s), j),
{
    lemma_last_sep(s, s.len() as int);
    match last_sep_before(s, s.len() as int) {
        Some(i) => {
            let b = s.skip(i + 2);
            assert(b =~= s.skip(s.len() - b.len()));
            assert forall|j: int| 0 <= j < b.len() implies !sep_at(b, j) by {
                if sep_at(b, j) {
                    assert(s[i + 2 + j] == b[j]);
                    assert(s[i + 2 + j + 1] == b[j + 1]);
                    assert(sep_at(s, i + 2 + j));
                }
            }
        },
        None => {
            assert(s =~= s.skip(0));
        },
    }
}

} // verus!
