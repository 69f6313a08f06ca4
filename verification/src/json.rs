//! Plain values read from JSON text.
use vstd::prelude::*;

verus! {

/// One member of a JSON object: its key, its value as JSON text, and what the value reads as where it
/// is taken for a `usize`, a `u64` or a `bool`, each with the reason where it is none. `real` is the
/// double-precision number that a number reads as, by its bits.
#[derive(Debug, PartialEq)]
pub struct JsonMember {
    pub key: String,
    pub text: String,
    pub count: Result<usize, String>,
    pub wide: Result<u64, String>,
    pub flag: Result<bool, String>,
    pub real: Option<u64>,
}

/// A member without the strings that hold its texts.
#[verifier::ext_equal]
pub ghost struct MemberModel {
    pub key: Seq<char>,
    pub text: Seq<char>,
    pub count: Result<usize, Seq<char>>,
    pub wide: Result<u64, Seq<char>>,
    pub flag: Result<bool, Seq<char>>,
    pub real: Option<u64>,
}

impl View for JsonMember {
    type V = MemberModel;

    open spec fn view(&self) -> MemberModel {
        MemberModel {
            key: self.key@,
            text: self.text@,
            count: match self.count {
                Ok(n) => Ok(n),
                Err(e) => Err(e@),
            },
            wide: match self.wide {
                Ok(n) => Ok(n),
                Err(e) => Err(e@),
            },
            flag: match self.flag {
                Ok(b) => Ok(b),
                Err(e) => Err(e@),
            },
            real: self.real,
        }
    }
}

impl Clone for JsonMember {
    fn clone(&self) -> (member: Self)
        ensures
            member@ == self@,
    {
        JsonMember {
            key: self.key.clone(),
            text: self.text.clone(),
            count: match &self.count {
                Ok(n) => Ok(*n),
                Err(e) => Err(e.clone()),
            },
            wide: match &self.wide {
                Ok(n) => Ok(*n),
                Err(e) => Err(e.clone()),
            },
            flag: match &self.flag {
                Ok(b) => Ok(*b),
                Err(e) => Err(e.clone()),
            },
            real: self.real,
        }
    }
}

/// Members without their strings.
pub open spec fn models(members: Seq<JsonMember>) -> Seq<MemberModel> {
    members.map_values(|m: JsonMember| m@)
}

/// The keys of members.
pub open spec fn member_keys(members: Seq<MemberModel>) -> Seq<Seq<char>> {
    members.map_values(|m: MemberModel| m.key)
}

/// What `serde_json` reads of a text where a `usize` has `word` bits: the members of the object that
/// stands under a name in the outermost object, none where there is no such object, or the reason why
/// the text is no JSON.
pub uninterp spec fn json_object(text: Seq<char>, name: Seq<char>, word: u32) -> Result<
    Option<Seq<MemberModel>>,
    Seq<char>,
>;

/// Reads the members of the object under a name.
///
/// Calls `serde_json::from_str` for a `Value`, then `Value::get` and `Value::as_object`. Each member
/// comes with what `serde_json::from_value` makes of its value, and with `Value::as_f64`. What these
/// give is a function of the two texts and of the width of a `usize`, and is named; no two members
/// have one key, as the object is a map.
#[verifier::external_body]
pub(crate) fn object_members(text: &str, name: &str) -> (result: Result<
    Option<Vec<JsonMember>>,
    String,
>)
    ensures
        match result {
            Ok(Some(members)) => json_object(text@, name@, usize::BITS) == Ok::<
                Option<Seq<MemberModel>>,
                Seq<char>,
            >(Some(models(members@))),
            Ok(None) => json_object(text@, name@, usize::BITS) == Ok::<
                Option<Seq<MemberModel>>,
                Seq<char>,
            >(None),
            Err(e) => json_object(text@, name@, usize::BITS) == Err::<
                Option<Seq<MemberModel>>,
                Seq<char>,
            >(e@),
        },
        result matches Ok(Some(members)) ==> member_keys(models(members@)).no_duplicates(),
{
    let words = |e: serde_json::Error| e.to_string();
    let root: serde_json::Value = serde_json::from_str(text).map_err(words)?;
    let member = |(key, v): (&String, &serde_json::Value)| JsonMember {
        key: key.clone(),
        text: v.to_string(),
        count: serde_json::from_value(v.clone()).map_err(words),
        wide: serde_json::from_value(v.clone()).map_err(words),
        flag: serde_json::from_value(v.clone()).map_err(words),
        real: v.as_f64().map(|x| x.to_bits()),
    };
    Ok(root.get(name).and_then(|v| v.as_object()).map(|m| m.iter().map(member).collect()))
}

/// What `serde_json` reads of bytes: the string three names deep, or none.
pub uninterp spec fn json_text_at(
    bytes: Seq<u8>,
    outer: Seq<char>,
    name: Seq<char>,
    field: Seq<char>,
) -> Option<Seq<char>>;

/// Reads the string that stands three names deep.
///
/// Calls `serde_json::from_slice` for a `Value`, indexes it by the three names in turn, and takes
/// `Value::as_str`. The result is a function of the bytes and the names, and is named; it is none
/// where the bytes are no JSON, where a name leads nowhere, and where no string stands there.
#[verifier::external_body]
pub(crate) fn text_at(bytes: &[u8], outer: &str, name: &str, field: &str) -> (text: Option<String>)
    ensures
        match text {
            Some(t) => json_text_at(bytes@, outer@, name@, field@) == Some(t@),
            None => json_text_at(bytes@, outer@, name@, field@) == None::<Seq<char>>,
        },
{
    let root: serde_json::Value = serde_json::from_slice(bytes).ok()?;
    root[outer][name][field].as_str().map(|t| t.to_string())
}

} // verus!
