//! Identifiers, values and validity tokens shared by the whole crate.
//!
//! Identifier and name types wrap a `String`; their view is its characters.
//! Equality, ordering and keying always go by that view.

use vstd::prelude::*;

pub use self::{
    GoalDuration as Duration, GoalTimestamp as Timestamp, GoalToolCall as ToolCall,
    GoalToolName as ToolName,
};

verus! {

/// Whether a text has the form of a random identifier: a version 4 UUID in
/// lower-case hyphenated form.
pub open spec fn is_random_id(s: Seq<char>) -> bool {
    &&& s.len() == 36
    &&& forall|i: int|
        0 <= i < 36 ==> if i == 8 || i == 13 || i == 18 || i == 23 {
            #[trigger] s[i] == '-'
        } else {
            '0' <= s[i] <= '9' || 'a' <= s[i] <= 'f'
        }
    &&& s[14] == '4'
    &&& s[19] == '8' || s[19] == '9' || s[19] == 'a' || s[19] == 'b'
}

/// Calls `uuid::Uuid::new_v4` and renders the value with its `Display`.
///
/// The identifier is random: the contract claims its form only, thirty-two
/// lower-case hexadecimal digits in five hyphenated groups with the version
/// digit four and a variant digit of eight to `b`, and nothing about which
/// identifier it is. Where the system has no
/// random bytes to give, the call panics.
#[verifier::external_body]
fn random_uuid() -> (r: String)
    ensures
        is_random_id(r@),
{
    uuid::Uuid::new_v4().to_string()
}

/// Identifies a node in the goal tree.
#[derive(Debug, PartialEq, Eq, PartialOrd, Ord, Hash)]
pub struct GoalNodeId(pub String);

impl View for GoalNodeId {
    type V = Seq<char>;

    open spec fn view(&self) -> Seq<char> {
        self.0@
    }
}

impl Clone for GoalNodeId {
    fn clone(&self) -> (r: Self)
        ensures
            r == *self,
    {
        GoalNodeId(self.0.clone())
    }
}

impl GoalNodeId {
    /// Generates a new random identifier.
    pub fn new() -> (r: Self)
        ensures
            is_random_id(r@),
    {
        GoalNodeId(random_uuid())
    }
}

impl Default for GoalNodeId {
    fn default() -> (r: Self)
        ensures
            is_random_id(r@),
    {
        GoalNodeId::new()
    }
}

impl From<&str> for GoalNodeId {
    fn from(value: &str) -> (r: Self)
        ensures
            r@ == value@,
    {
        GoalNodeId(value.to_owned())
    }
}

impl vstd::std_specs::convert::FromSpecImpl<&str> for GoalNodeId {
    open spec fn obeys_from_spec() -> bool {
        false
    }

    open spec fn from_spec(value: &str) -> Self {
        arbitrary()
    }
}

impl From<String> for GoalNodeId {
    fn from(value: String) -> (r: Self) {
        GoalNodeId(value)
    }
}

impl vstd::std_specs::convert::FromSpecImpl<String> for GoalNodeId {
    open spec fn obeys_from_spec() -> bool {
        true
    }

    open spec fn from_spec(value: String) -> Self {
        GoalNodeId(value)
    }
}

impl GoalNodeId {
    /// The text of the value.
    pub fn to_string(&self) -> (r: String)
        ensures
            r@ == self@,
    {
        self.0.clone()
    }
}

/// Identifies a procedural memory.
#[derive(Debug, PartialEq, Eq, PartialOrd, Ord, Hash)]
pub struct MemoryId(pub String);

impl View for MemoryId {
    type V = Seq<char>;

    open spec fn view(&self) -> Seq<char> {
        self.0@
    }
}

impl Clone for MemoryId {
    fn clone(&self) -> (r: Self)
        ensures
            r == *self,
    {
        MemoryId(self.0.clone())
    }
}

impl MemoryId {
    /// Generates a new random identifier.
    pub fn new() -> (r: Self)
        ensures
            is_random_id(r@),
    {
        MemoryId(random_uuid())
    }
}

impl Default for MemoryId {
    fn default() -> (r: Self)
        ensures
            is_random_id(r@),
    {
        MemoryId::new()
    }
}

impl From<&str> for MemoryId {
    fn from(value: &str) -> (r: Self)
        ensures
            r@ == value@,
    {
        MemoryId(value.to_owned())
    }
}

impl vstd::std_specs::convert::FromSpecImpl<&str> for MemoryId {
    open spec fn obeys_from_spec() -> bool {
        false
    }

    open spec fn from_spec(value: &str) -> Self {
        arbitrary()
    }
}

impl From<String> for MemoryId {
    fn from(value: String) -> (r: Self) {
        MemoryId(value)
    }
}

impl vstd::std_specs::convert::FromSpecImpl<String> for MemoryId {
    open spec fn obeys_from_spec() -> bool {
        true
    }

    open spec fn from_spec(value: String) -> Self {
        MemoryId(value)
    }
}

impl MemoryId {
    /// The text of the value.
    pub fn to_string(&self) -> (r: String)
        ensures
            r@ == self@,
    {
        self.0.clone()
    }
}

/// Identifies the session whose event log a goal tree is folded from.
#[derive(Debug, PartialEq, Eq, PartialOrd, Ord, Hash)]
pub struct SessionId(pub String);

impl View for SessionId {
    type V = Seq<char>;

    open spec fn view(&self) -> Seq<char> {
        self.0@
    }
}

impl Clone for SessionId {
    fn clone(&self) -> (r: Self)
        ensures
            r == *self,
    {
        SessionId(self.0.clone())
    }
}

impl SessionId {
    /// Generates a new random identifier.
    pub fn new() -> (r: Self)
        ensures
            is_random_id(r@),
    {
        SessionId(random_uuid())
    }
}

impl Default for SessionId {
    fn default() -> (r: Self)
        ensures
            is_random_id(r@),
    {
        SessionId::new()
    }
}

impl From<&str> for SessionId {
    fn from(value: &str) -> (r: Self)
        ensures
            r@ == value@,
    {
        SessionId(value.to_owned())
    }
}

impl vstd::std_specs::convert::FromSpecImpl<&str> for SessionId {
    open spec fn obeys_from_spec() -> bool {
        false
    }

    open spec fn from_spec(value: &str) -> Self {
        arbitrary()
    }
}

impl From<String> for SessionId {
    fn from(value: String) -> (r: Self) {
        SessionId(value)
    }
}

impl vstd::std_specs::convert::FromSpecImpl<String> for SessionId {
    open spec fn obeys_from_spec() -> bool {
        true
    }

    open spec fn from_spec(value: String) -> Self {
        SessionId(value)
    }
}

impl SessionId {
    /// The text of the value.
    pub fn to_string(&self) -> (r: String)
        ensures
            r@ == self@,
    {
        self.0.clone()
    }
}

/// The kind of intent a goal expresses, such as `lookup` or `mutate`.
#[derive(Debug, PartialEq, Eq, PartialOrd, Ord, Hash)]
pub struct IntentType(pub String);

impl View for IntentType {
    type V = Seq<char>;

    open spec fn view(&self) -> Seq<char> {
        self.0@
    }
}

impl Clone for IntentType {
    fn clone(&self) -> (r: Self)
        ensures
            r == *self,
    {
        IntentType(self.0.clone())
    }
}

impl Default for IntentType {
    fn default() -> (r: Self)
        ensures
            r@ == Seq::<char>::empty(),
    {
        IntentType(String::new())
    }
}

impl From<&str> for IntentType {
    fn from(value: &str) -> (r: Self)
        ensures
            r@ == value@,
    {
        IntentType(value.to_owned())
    }
}

impl vstd::std_specs::convert::FromSpecImpl<&str> for IntentType {
    open spec fn obeys_from_spec() -> bool {
        false
    }

    open spec fn from_spec(value: &str) -> Self {
        arbitrary()
    }
}

impl From<String> for IntentType {
    fn from(value: String) -> (r: Self) {
        IntentType(value)
    }
}

impl vstd::std_specs::convert::FromSpecImpl<String> for IntentType {
    open spec fn obeys_from_spec() -> bool {
        true
    }

    open spec fn from_spec(value: String) -> Self {
        IntentType(value)
    }
}

impl IntentType {
    /// The text of the value.
    pub fn to_string(&self) -> (r: String)
        ensures
            r@ == self@,
    {
        self.0.clone()
    }
}

/// The category of thing a goal acts on, such as `file` or `service`.
#[derive(Debug, PartialEq, Eq, PartialOrd, Ord, Hash)]
pub struct TargetType(pub String);

impl View for TargetType {
    type V = Seq<char>;

    open spec fn view(&self) -> Seq<char> {
        self.0@
    }
}

impl Clone for TargetType {
    fn clone(&self) -> (r: Self)
        ensures
            r == *self,
    {
        TargetType(self.0.clone())
    }
}

impl Default for TargetType {
    fn default() -> (r: Self)
        ensures
            r@ == Seq::<char>::empty(),
    {
        TargetType(String::new())
    }
}

impl From<&str> for TargetType {
    fn from(value: &str) -> (r: Self)
        ensures
            r@ == value@,
    {
        TargetType(value.to_owned())
    }
}

impl vstd::std_specs::convert::FromSpecImpl<&str> for TargetType {
    open spec fn obeys_from_spec() -> bool {
        false
    }

    open spec fn from_spec(value: &str) -> Self {
        arbitrary()
    }
}

impl From<String> for TargetType {
    fn from(value: String) -> (r: Self) {
        TargetType(value)
    }
}

impl vstd::std_specs::convert::FromSpecImpl<String> for TargetType {
    open spec fn obeys_from_spec() -> bool {
        true
    }

    open spec fn from_spec(value: String) -> Self {
        TargetType(value)
    }
}

impl TargetType {
    /// The text of the value.
    pub fn to_string(&self) -> (r: String)
        ensures
            r@ == self@,
    {
        self.0.clone()
    }
}

/// A concrete reference to the target a goal acts on.
#[derive(Debug, PartialEq, Eq, PartialOrd, Ord, Hash)]
pub struct TargetRef(pub String);

impl View for TargetRef {
    type V = Seq<char>;

    open spec fn view(&self) -> Seq<char> {
        self.0@
    }
}

impl Clone for TargetRef {
    fn clone(&self) -> (r: Self)
        ensures
            r == *self,
    {
        TargetRef(self.0.clone())
    }
}

impl Default for TargetRef {
    fn default() -> (r: Self)
        ensures
            r@ == Seq::<char>::empty(),
    {
        TargetRef(String::new())
    }
}

impl From<&str> for TargetRef {
    fn from(value: &str) -> (r: Self)
        ensures
            r@ == value@,
    {
        TargetRef(value.to_owned())
    }
}

impl vstd::std_specs::convert::FromSpecImpl<&str> for TargetRef {
    open spec fn obeys_from_spec() -> bool {
        false
    }

    open spec fn from_spec(value: &str) -> Self {
        arbitrary()
    }
}

impl From<String> for TargetRef {
    fn from(value: String) -> (r: Self) {
        TargetRef(value)
    }
}

impl vstd::std_specs::convert::FromSpecImpl<String> for TargetRef {
    open spec fn obeys_from_spec() -> bool {
        true
    }

    open spec fn from_spec(value: String) -> Self {
        TargetRef(value)
    }
}

impl TargetRef {
    /// The text of the value.
    pub fn to_string(&self) -> (r: String)
        ensures
            r@ == self@,
    {
        self.0.clone()
    }
}

/// The bounding context in which a goal applies.
#[derive(Debug, PartialEq, Eq, PartialOrd, Ord, Hash)]
pub struct Scope(pub String);

impl View for Scope {
    type V = Seq<char>;

    open spec fn view(&self) -> Seq<char> {
        self.0@
    }
}

impl Clone for Scope {
    fn clone(&self) -> (r: Self)
        ensures
            r == *self,
    {
        Scope(self.0.clone())
    }
}

impl Default for Scope {
    fn default() -> (r: Self)
        ensures
            r@ == Seq::<char>::empty(),
    {
        Scope(String::new())
    }
}

impl From<&str> for Scope {
    fn from(value: &str) -> (r: Self)
        ensures
            r@ == value@,
    {
        Scope(value.to_owned())
    }
}

impl vstd::std_specs::convert::FromSpecImpl<&str> for Scope {
    open spec fn obeys_from_spec() -> bool {
        false
    }

    open spec fn from_spec(value: &str) -> Self {
        arbitrary()
    }
}

impl From<String> for Scope {
    fn from(value: String) -> (r: Self) {
        Scope(value)
    }
}

impl vstd::std_specs::convert::FromSpecImpl<String> for Scope {
    open spec fn obeys_from_spec() -> bool {
        true
    }

    open spec fn from_spec(value: String) -> Self {
        Scope(value)
    }
}

impl Scope {
    /// The text of the value.
    pub fn to_string(&self) -> (r: String)
        ensures
            r@ == self@,
    {
        self.0.clone()
    }
}

/// The name of a tool whose calls are cached.
#[derive(Debug, PartialEq, Eq, PartialOrd, Ord, Hash)]
pub struct GoalToolName(pub String);

impl View for GoalToolName {
    type V = Seq<char>;

    open spec fn view(&self) -> Seq<char> {
        self.0@
    }
}

impl Clone for GoalToolName {
    fn clone(&self) -> (r: Self)
        ensures
            r == *self,
    {
        GoalToolName(self.0.clone())
    }
}

impl Default for GoalToolName {
    fn default() -> (r: Self)
        ensures
            r@ == Seq::<char>::empty(),
    {
        GoalToolName(String::new())
    }
}

impl From<&str> for GoalToolName {
    fn from(value: &str) -> (r: Self)
        ensures
            r@ == value@,
    {
        GoalToolName(value.to_owned())
    }
}

impl vstd::std_specs::convert::FromSpecImpl<&str> for GoalToolName {
    open spec fn obeys_from_spec() -> bool {
        false
    }

    open spec fn from_spec(value: &str) -> Self {
        arbitrary()
    }
}

impl From<String> for GoalToolName {
    fn from(value: String) -> (r: Self) {
        GoalToolName(value)
    }
}

impl vstd::std_specs::convert::FromSpecImpl<String> for GoalToolName {
    open spec fn obeys_from_spec() -> bool {
        true
    }

    open spec fn from_spec(value: String) -> Self {
        GoalToolName(value)
    }
}

impl GoalToolName {
    /// The text of the value.
    pub fn to_string(&self) -> (r: String)
        ensures
            r@ == self@,
    {
        self.0.clone()
    }
}

/// The byte-stable canonical JSON encoding of tool arguments.
///
/// Equal arguments of a tool have equal encodings, so they key one cache entry.
#[derive(Debug, PartialEq, Eq, PartialOrd, Ord, Hash)]
pub struct CanonicalJson(pub String);

impl View for CanonicalJson {
    type V = Seq<char>;

    open spec fn view(&self) -> Seq<char> {
        self.0@
    }
}

impl Clone for CanonicalJson {
    fn clone(&self) -> (r: Self)
        ensures
            r == *self,
    {
        CanonicalJson(self.0.clone())
    }
}

impl CanonicalJson {
    /// The text of the value.
    pub fn to_string(&self) -> (r: String)
        ensures
            r@ == self@,
    {
        self.0.clone()
    }
}

impl CanonicalJson {
    /// The canonical bytes: the text in UTF-8.
    pub fn as_bytes(&self) -> (r: &[u8])
        ensures
            r@ == vstd::utf8::encode_utf8(self@),
    {
        self.0.as_str().as_bytes()
    }
}

/// A SHA-256 digest in lower-case hexadecimal.
#[derive(Debug, PartialEq, Eq, PartialOrd, Ord, Hash)]
pub struct Sha256(pub String);

impl View for Sha256 {
    type V = Seq<char>;

    open spec fn view(&self) -> Seq<char> {
        self.0@
    }
}

impl Clone for Sha256 {
    fn clone(&self) -> (r: Self)
        ensures
            r == *self,
    {
        Sha256(self.0.clone())
    }
}

impl From<&str> for Sha256 {
    fn from(value: &str) -> (r: Self)
        ensures
            r@ == value@,
    {
        Sha256(value.to_owned())
    }
}

impl vstd::std_specs::convert::FromSpecImpl<&str> for Sha256 {
    open spec fn obeys_from_spec() -> bool {
        false
    }

    open spec fn from_spec(value: &str) -> Self {
        arbitrary()
    }
}

impl From<String> for Sha256 {
    fn from(value: String) -> (r: Self) {
        Sha256(value)
    }
}

impl vstd::std_specs::convert::FromSpecImpl<String> for Sha256 {
    open spec fn obeys_from_spec() -> bool {
        true
    }

    open spec fn from_spec(value: String) -> Self {
        Sha256(value)
    }
}

impl Sha256 {
    /// The text of the value.
    pub fn to_string(&self) -> (r: String)
        ensures
            r@ == self@,
    {
        self.0.clone()
    }
}

/// The stable content hash of a resolved goal subtree: its version and idempotency key.
#[derive(Debug, PartialEq, Eq, PartialOrd, Ord, Hash)]
pub struct SubtreeHash(pub Sha256);

impl View for SubtreeHash {
    type V = Seq<char>;

    open spec fn view(&self) -> Seq<char> {
        self.0@
    }
}

impl Clone for SubtreeHash {
    fn clone(&self) -> (r: Self)
        ensures
            r == *self,
    {
        SubtreeHash(self.0.clone())
    }
}

impl SubtreeHash {
    /// The text of the value.
    pub fn to_string(&self) -> (r: String)
        ensures
            r@ == self@,
    {
        self.0.to_string()
    }
}

/// The concrete result of a tool call, owned by the evidence cache.
#[derive(Debug, PartialEq, Eq, PartialOrd, Ord, Hash)]
pub struct EvidenceValue(pub CanonicalJson);

impl View for EvidenceValue {
    type V = Seq<char>;

    open spec fn view(&self) -> Seq<char> {
        self.0@
    }
}

impl Clone for EvidenceValue {
    fn clone(&self) -> (r: Self)
        ensures
            r == *self,
    {
        EvidenceValue(self.0.clone())
    }
}

/// An instant in whole milliseconds since the Unix epoch.
#[derive(Debug, Clone, Copy, PartialEq, Eq, PartialOrd, Ord, Hash, Structural)]
pub struct GoalTimestamp(pub u64);

/// A span of time in whole milliseconds.
#[derive(Debug, Clone, Copy, PartialEq, Eq, PartialOrd, Ord, Hash, Structural)]
pub struct GoalDuration(pub u64);

impl Default for GoalTimestamp {
    fn default() -> (r: Self)
        ensures
            r == GoalTimestamp(0),
    {
        GoalTimestamp(0)
    }
}

impl Default for GoalDuration {
    fn default() -> (r: Self)
        ensures
            r == GoalDuration(0),
    {
        GoalDuration(0)
    }
}

/// `at` later by `span`, held at the largest instant.
pub open spec fn instant_after(at: u64, span: u64) -> u64 {
    if at + span > u64::MAX {
        u64::MAX
    } else {
        (at + span) as u64
    }
}

impl GoalTimestamp {
    /// The instant `duration` after this one, saturating on overflow.
    pub fn plus(self, duration: GoalDuration) -> (r: Self)
        ensures
            r.0 == instant_after(self.0, duration.0),
    {
        GoalTimestamp(self.0.saturating_add(duration.0))
    }
}

/// A position in an append-only event log.
#[derive(Debug, Clone, Copy, PartialEq, Eq, PartialOrd, Ord, Hash, Structural)]
pub struct EventSeq(pub u64);

impl Default for EventSeq {
    fn default() -> (r: Self)
        ensures
            r == EventSeq(0),
    {
        EventSeq(0)
    }
}

/// Names the event stream that an event-driven token watches.
#[derive(Debug, PartialEq, Eq, PartialOrd, Ord, Hash)]
pub struct EventKey(pub String);

impl View for EventKey {
    type V = Seq<char>;

    open spec fn view(&self) -> Seq<char> {
        self.0@
    }
}

impl Clone for EventKey {
    fn clone(&self) -> (r: Self)
        ensures
            r == *self,
    {
        EventKey(self.0.clone())
    }
}

impl Default for EventKey {
    fn default() -> (r: Self)
        ensures
            r@ == Seq::<char>::empty(),
    {
        EventKey(String::new())
    }
}

impl From<&str> for EventKey {
    fn from(value: &str) -> (r: Self)
        ensures
            r@ == value@,
    {
        EventKey(value.to_owned())
    }
}

impl vstd::std_specs::convert::FromSpecImpl<&str> for EventKey {
    open spec fn obeys_from_spec() -> bool {
        false
    }

    open spec fn from_spec(value: &str) -> Self {
        arbitrary()
    }
}

impl From<String> for EventKey {
    fn from(value: String) -> (r: Self) {
        EventKey(value)
    }
}

impl vstd::std_specs::convert::FromSpecImpl<String> for EventKey {
    open spec fn obeys_from_spec() -> bool {
        true
    }

    open spec fn from_spec(value: String) -> Self {
        EventKey(value)
    }
}

impl EventKey {
    /// The text of the value.
    pub fn to_string(&self) -> (r: String)
        ensures
            r@ == self@,
    {
        self.0.clone()
    }
}

/// The retrieval and merge key attached to every goal node.
#[derive(Debug, PartialEq, Eq, PartialOrd, Ord, Hash)]
pub struct IntentSignature {
    /// The kind of intent the goal expresses.
    pub intent_type: IntentType,
    /// The category of thing the goal acts on.
    pub target_type: TargetType,
    /// The concrete reference to the target.
    pub target_ref: TargetRef,
    /// The bounding context in which the goal applies.
    pub scope: Scope,
}

/// The four fields of a signature.
#[verifier::ext_equal]
pub struct IntentView {
    pub intent_type: Seq<char>,
    pub target_type: Seq<char>,
    pub target_ref: Seq<char>,
    pub scope: Seq<char>,
}

impl View for IntentSignature {
    type V = IntentView;

    open spec fn view(&self) -> IntentView {
        IntentView {
            intent_type: self.intent_type@,
            target_type: self.target_type@,
            target_ref: self.target_ref@,
            scope: self.scope@,
        }
    }
}

impl Clone for IntentSignature {
    fn clone(&self) -> (r: Self)
        ensures
            r == *self,
    {
        IntentSignature {
            intent_type: self.intent_type.clone(),
            target_type: self.target_type.clone(),
            target_ref: self.target_ref.clone(),
            scope: self.scope.clone(),
        }
    }
}

impl IntentSignature {
    /// Whether the two signatures agree on all four fields.
    pub fn same(&self, other: &IntentSignature) -> (r: bool)
        ensures
            r == (self@ == other@),
    {
        let r = self.intent_type.0 == other.intent_type.0 && self.target_type.0
            == other.target_type.0 && self.target_ref.0 == other.target_ref.0 && self.scope.0
            == other.scope.0;
        assert(r ==> self@ =~= other@);
        r
    }
}

/// A readable reference to the content behind a pinnable source.
#[derive(Debug, PartialEq, Eq, PartialOrd, Ord, Hash)]
pub struct ContentRef(pub String);

impl View for ContentRef {
    type V = Seq<char>;

    open spec fn view(&self) -> Seq<char> {
        self.0@
    }
}

impl Clone for ContentRef {
    fn clone(&self) -> (r: Self)
        ensures
            r == *self,
    {
        ContentRef(self.0.clone())
    }
}

impl From<&str> for ContentRef {
    fn from(value: &str) -> (r: Self)
        ensures
            r@ == value@,
    {
        ContentRef(value.to_owned())
    }
}

impl vstd::std_specs::convert::FromSpecImpl<&str> for ContentRef {
    open spec fn obeys_from_spec() -> bool {
        false
    }

    open spec fn from_spec(value: &str) -> Self {
        arbitrary()
    }
}

impl From<String> for ContentRef {
    fn from(value: String) -> (r: Self) {
        ContentRef(value)
    }
}

impl vstd::std_specs::convert::FromSpecImpl<String> for ContentRef {
    open spec fn obeys_from_spec() -> bool {
        true
    }

    open spec fn from_spec(value: String) -> Self {
        ContentRef(value)
    }
}

impl ContentRef {
    /// The text of the value.
    pub fn to_string(&self) -> (r: String)
        ensures
            r@ == self@,
    {
        self.0.clone()
    }
}

/// A pointer to the result of a tool call, in place of the result itself.
#[derive(Debug, PartialEq, Eq, PartialOrd, Ord, Hash)]
pub struct OutcomeRef(pub String);

impl View for OutcomeRef {
    type V = Seq<char>;

    open spec fn view(&self) -> Seq<char> {
        self.0@
    }
}

impl Clone for OutcomeRef {
    fn clone(&self) -> (r: Self)
        ensures
            r == *self,
    {
        OutcomeRef(self.0.clone())
    }
}

impl From<&str> for OutcomeRef {
    fn from(value: &str) -> (r: Self)
        ensures
            r@ == value@,
    {
        OutcomeRef(value.to_owned())
    }
}

impl vstd::std_specs::convert::FromSpecImpl<&str> for OutcomeRef {
    open spec fn obeys_from_spec() -> bool {
        false
    }

    open spec fn from_spec(value: &str) -> Self {
        arbitrary()
    }
}

impl From<String> for OutcomeRef {
    fn from(value: String) -> (r: Self) {
        OutcomeRef(value)
    }
}

impl vstd::std_specs::convert::FromSpecImpl<String> for OutcomeRef {
    open spec fn obeys_from_spec() -> bool {
        true
    }

    open spec fn from_spec(value: String) -> Self {
        OutcomeRef(value)
    }
}

impl OutcomeRef {
    /// The text of the value.
    pub fn to_string(&self) -> (r: String)
        ensures
            r@ == self@,
    {
        self.0.clone()
    }
}

/// How the validity of a cached result is checked again.
#[derive(Debug, PartialEq, Eq, PartialOrd, Ord, Hash)]
pub enum ValidityToken {
    /// Valid while the source's content has this hash.
    ContentHash(Sha256),
    /// Valid until `ttl` after `issued_at`.
    Ttl {
        /// The instant the token was issued.
        issued_at: GoalTimestamp,
        /// How long the token stays valid.
        ttl: GoalDuration,
    },
    /// Valid while no event after `last_seen` is observed on `subscription`.
    EventDriven {
        /// The event stream the token watches.
        subscription: EventKey,
        /// The latest event position at issuance.
        last_seen: EventSeq,
    },
}

/// The content of a validity token.
#[verifier::ext_equal]
pub enum TokenView {
    ContentHash(Seq<char>),
    Ttl { issued_at: u64, ttl: u64 },
    EventDriven { subscription: Seq<char>, last_seen: u64 },
}

impl View for ValidityToken {
    type V = TokenView;

    open spec fn view(&self) -> TokenView {
        match *self {
            ValidityToken::ContentHash(h) => TokenView::ContentHash(h@),
            ValidityToken::Ttl { issued_at, ttl } => TokenView::Ttl {
                issued_at: issued_at.0,
                ttl: ttl.0,
            },
            ValidityToken::EventDriven { subscription, last_seen } => TokenView::EventDriven {
                subscription: subscription@,
                last_seen: last_seen.0,
            },
        }
    }
}

impl Clone for ValidityToken {
    fn clone(&self) -> (r: Self)
        ensures
            r == *self,
    {
        match self {
            ValidityToken::ContentHash(h) => ValidityToken::ContentHash(h.clone()),
            ValidityToken::Ttl { issued_at, ttl } => ValidityToken::Ttl {
                issued_at: *issued_at,
                ttl: *ttl,
            },
            ValidityToken::EventDriven { subscription, last_seen } => ValidityToken::EventDriven {
                subscription: subscription.clone(),
                last_seen: *last_seen,
            },
        }
    }
}

/// Describes a source well enough to pick its volatility class.
#[derive(Debug, PartialEq, Eq, PartialOrd, Ord, Hash)]
pub enum SourceDescriptor {
    /// Change-detectable content, checked by its hash.
    Pinnable {
        /// A readable reference to the content.
        content: ContentRef,
    },
    /// No change signal: valid for a while.
    Volatile {
        /// How long an issued token stays valid.
        ttl: GoalDuration,
    },
    /// Changes are announced on an event stream.
    Signalled {
        /// The event stream to watch.
        subscription: EventKey,
    },
}

/// The content of a source descriptor.
#[verifier::ext_equal]
pub enum SourceView {
    Pinnable { content: Seq<char> },
    Volatile { ttl: u64 },
    Signalled { subscription: Seq<char> },
}

impl View for SourceDescriptor {
    type V = SourceView;

    open spec fn view(&self) -> SourceView {
        match *self {
            SourceDescriptor::Pinnable { content } => SourceView::Pinnable { content: content@ },
            SourceDescriptor::Volatile { ttl } => SourceView::Volatile { ttl: ttl.0 },
            SourceDescriptor::Signalled { subscription } => SourceView::Signalled {
                subscription: subscription@,
            },
        }
    }
}

impl Clone for SourceDescriptor {
    fn clone(&self) -> (r: Self)
        ensures
            r == *self,
    {
        match self {
            SourceDescriptor::Pinnable { content } => SourceDescriptor::Pinnable {
                content: content.clone(),
            },
            SourceDescriptor::Volatile { ttl } => SourceDescriptor::Volatile { ttl: *ttl },
            SourceDescriptor::Signalled { subscription } => SourceDescriptor::Signalled {
                subscription: subscription.clone(),
            },
        }
    }
}

/// The reproducible record of one tool invocation.
#[derive(Debug, PartialEq, Eq, PartialOrd, Ord, Hash)]
pub struct GoalToolCall {
    /// The tool that was invoked.
    pub tool: GoalToolName,
    /// The arguments in canonical form.
    pub normalized_args: CanonicalJson,
    /// How the result's freshness is checked again.
    pub validity_token: ValidityToken,
    /// Where the result is found.
    pub outcome: OutcomeRef,
}

/// The content of a tool call.
#[verifier::ext_equal]
pub struct ToolCallView {
    pub tool: Seq<char>,
    pub normalized_args: Seq<char>,
    pub validity_token: TokenView,
    pub outcome: Seq<char>,
}

impl View for GoalToolCall {
    type V = ToolCallView;

    open spec fn view(&self) -> ToolCallView {
        ToolCallView {
            tool: self.tool@,
            normalized_args: self.normalized_args@,
            validity_token: self.validity_token@,
            outcome: self.outcome@,
        }
    }
}

impl Clone for GoalToolCall {
    fn clone(&self) -> (r: Self)
        ensures
            r == *self,
    {
        GoalToolCall {
            tool: self.tool.clone(),
            normalized_args: self.normalized_args.clone(),
            validity_token: self.validity_token.clone(),
            outcome: self.outcome.clone(),
        }
    }
}

} // verus!
