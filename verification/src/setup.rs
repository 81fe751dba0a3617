//! The decisions of the setup wizard.

use crate::text::{
    before_first, contains, contains_text, law_cutting_stops_at_the_first,
    law_occurrences_are_replaced,
    law_what_stands_in_a_text_is_found, lemma_replaced_absent, lowercase, occurs_at, replace_all,
    replaced, same_text, up_to,
};
use vstd::prelude::*;
use vstd::utf8::encode_utf8;

verus! {

/// Nanoseconds that the wizard waits for the button on the bridge.
pub const LINK_TIMEOUT: u128 = 60_000_000_000;

/// Why setting up fails.
#[derive(Debug)]
pub enum SetupError {
    /// A bridge announces itself without an address.
    NoAddress,
    /// No bridge with this ID is found.
    NoBridge(String),
    /// Nobody pressed the button.
    TimedOut,
    /// The bridge refuses, with these words.
    Refused(String),
    /// The bridge has no Entertainment Area.
    NoAreas,
    /// There is no MIDI device.
    NoMidiDevices,
}

impl SetupError {
    /// The error in words.
    pub open spec fn text(self) -> Seq<char> {
        match self {
            SetupError::NoAddress => "No IP found for mDNS service"@,
            SetupError::NoBridge(id) => "Could not find Hue bridge with ID "@ + id@
                + " on the network"@,
            SetupError::TimedOut => "Timed out waiting for Hue Bridge button press (60s limit)."@,
            SetupError::Refused(description) => "Bridge error: "@ + description@,
            SetupError::NoAreas =>
                "No Entertainment Areas found. Please create one in the Hue App first."@,
            SetupError::NoMidiDevices =>
                "No MIDI devices found. Please connect a device and try again."@,
        }
    }

    /// The error in words.
    pub fn message(&self) -> (message: String)
        ensures
            message@ == self.text(),
    {
        match self {
            SetupError::NoAddress => "No IP found for mDNS service".to_owned(),
            SetupError::NoBridge(id) => {
                let mut message: String = "Could not find Hue bridge with ID ".to_owned();
                message.append(id.as_str());
                message.append(" on the network");
                message
            },
            SetupError::TimedOut => {
                "Timed out waiting for Hue Bridge button press (60s limit).".to_owned()
            },
            SetupError::Refused(description) => {
                let mut message: String = "Bridge error: ".to_owned();
                message.append(description.as_str());
                message
            },
            SetupError::NoAreas => {
                "No Entertainment Areas found. Please create one in the Hue App first.".to_owned()
            },
            SetupError::NoMidiDevices => {
                "No MIDI devices found. Please connect a device and try again.".to_owned()
            },
        }
    }
}

/// What the wizard finds out.
#[derive(Debug)]
pub struct Answers {
    pub midi_device: String,
    pub bridge_ip: String,
    pub bridge_id: String,
    pub username: String,
    pub client_key: String,
    pub area_id: String,
}

/// A configuration template with its blanks filled in, one after the other.
pub open spec fn rendered(template: Seq<char>, answers: Answers) -> Seq<char> {
    let with_device = replaced(template, "{midi_device}"@, answers.midi_device@);
    let with_ip = replaced(with_device, "{bridge_ip}"@, answers.bridge_ip@);
    let with_id = replaced(with_ip, "{bridge_id}"@, answers.bridge_id@);
    let with_user = replaced(with_id, "{username}"@, answers.username@);
    let with_key = replaced(with_user, "{client_key}"@, answers.client_key@);
    replaced(with_key, "{area_id}"@, answers.area_id@)
}

/// A configuration template with its blanks filled in.
pub fn render_config(template: &str, answers: &Answers) -> (config: String)
    ensures
        config@ == rendered(template@, *answers),
{
    proof {
        reveal_strlit("{midi_device}");
        reveal_strlit("{bridge_ip}");
        reveal_strlit("{bridge_id}");
        reveal_strlit("{username}");
        reveal_strlit("{client_key}");
        reveal_strlit("{area_id}");
    }
    let config: String = replace_all(template, "{midi_device}", answers.midi_device.as_str());
    let config: String = replace_all(config.as_str(), "{bridge_ip}", answers.bridge_ip.as_str());
    let config: String = replace_all(config.as_str(), "{bridge_id}", answers.bridge_id.as_str());
    let config: String = replace_all(config.as_str(), "{username}", answers.username.as_str());
    let config: String = replace_all(config.as_str(), "{client_key}", answers.client_key.as_str());
    replace_all(config.as_str(), "{area_id}", answers.area_id.as_str())
}

/// The text that bytes hold, what is not UTF-8 among them made up for.
pub uninterp spec fn lossy_text(bytes: Seq<u8>) -> Seq<char>;

/// `String::from_utf8_lossy` gives the text that the bytes hold. It depends on
/// the bytes alone. Bytes that encode a text give that text.
#[verifier::external_body]
fn read_lossily(bytes: &[u8]) -> (text: String)
    ensures
        text@ == lossy_text(bytes@),
        forall|chars: Seq<char>| #[trigger] encode_utf8(chars) == bytes@ ==> text@ == chars,
{
    String::from_utf8_lossy(bytes).into_owned()
}

/// The ID of a bridge: the property that it announces, or else its name up to
/// the first dot with hyphens for spaces, in lower case.
pub open spec fn announced_id(property: Option<Seq<u8>>, fullname: Seq<char>) -> Seq<char> {
    match property {
        Some(bytes) => lowercase(lossy_text(bytes)),
        None => lowercase(replaced(before_first(fullname, '.'), " "@, "-"@)),
    }
}

/// The ID of a bridge that announces itself.
pub fn bridge_id(property: Option<&Vec<u8>>, fullname: &str) -> (id: String)
    ensures
        id@ == (match property {
            Some(bytes) => announced_id(Some(bytes@), fullname@),
            None => announced_id(None, fullname@),
        }),
{
    match property {
        Some(bytes) => read_lossily(bytes.as_slice()).as_str().to_lowercase(),
        None => {
            proof {
                reveal_strlit(" ");
            }
            let name: String = up_to(fullname, '.');
            replace_all(name.as_str(), " ", "-").as_str().to_lowercase()
        },
    }
}

/// A bridge that announces itself is the one with the given ID.
pub open spec fn is_target(property: Option<Seq<u8>>, target_id: Seq<char>) -> bool {
    match property {
        Some(bytes) => lowercase(lossy_text(bytes)) == lowercase(target_id),
        None => lowercase(target_id).len() == 0,
    }
}

/// Whether a bridge that announces itself is the one with the given ID, in any
/// case of letters. One that announces no ID has the empty one.
pub fn is_bridge(property: Option<&Vec<u8>>, target_id: &str) -> (same: bool)
    ensures
        same == (match property {
            Some(bytes) => lowercase(lossy_text(bytes@)) == lowercase(target_id@),
            None => lowercase(target_id@) == Seq::<char>::empty(),
        }),
        same == (match property {
            Some(bytes) => is_target(Some(bytes@), target_id@),
            None => is_target(None, target_id@),
        }),
{
    let target: String = target_id.to_lowercase();
    match property {
        Some(bytes) => {
            let id: String = read_lossily(bytes.as_slice()).as_str().to_lowercase();
            same_text(id.as_str(), target.as_str())
        },
        None => {
            assert(target@.len() == 0 ==> target@ =~= Seq::<char>::empty());
            target.as_str().unicode_len() == 0
        },
    }
}

/// The place of the first address to use: the first of version 4, or else the
/// first.
pub open spec fn is_preferred(version_4: Seq<bool>, place: int) -> bool {
    &&& 0 <= place < version_4.len()
    &&& version_4[place] || (place == 0 && forall|i: int|
        0 <= i < version_4.len() ==> !#[trigger] version_4[i])
    &&& forall|i: int| 0 <= i < place ==> !#[trigger] version_4[i]
}

/// Which of a bridge's addresses to use, told which of them are of version 4.
pub fn preferred_address(version_4: &Vec<bool>) -> (result: Result<usize, SetupError>)
    ensures
        match result {
            Ok(place) => is_preferred(version_4@, place as int),
            Err(error) => version_4@.len() == 0 && error == SetupError::NoAddress,
        },
{
    let mut i: usize = 0;
    while i < version_4.len()
        invariant
            i <= version_4@.len(),
            forall|j: int| 0 <= j < i ==> !#[trigger] version_4@[j],
        decreases version_4@.len() - i,
    {
        if version_4[i] {
            return Ok(i);
        }
        i += 1;
    }
    if version_4.len() == 0 {
        Err(SetupError::NoAddress)
    } else {
        Ok(0)
    }
}

/// A bridge that the discovery service lists.
#[derive(Debug)]
pub struct ListedBridge {
    pub id: String,
    pub internalipaddress: String,
}

/// What the discovery service says.
#[derive(Debug)]
pub enum ServiceAnswer {
    /// It was asked too often.
    TooManyRequests,
    /// It lists a bridge, with this address and ID.
    Found { address: String, id: String },
    /// It is of no help.
    Nothing,
}

/// The bridge that the discovery service offers: the first that it lists, unless it
/// was asked too often.
pub open spec fn offered(status: u16, bridges: Option<Seq<ListedBridge>>) -> Option<ListedBridge> {
    match bridges {
        Some(list) => if status != 429 && list.len() > 0 {
            Some(list[0])
        } else {
            None
        },
        None => None,
    }
}

/// A referenced list of bridges, if any, by itself.
pub open spec fn bridge_list(bridges: Option<&Vec<ListedBridge>>) -> Option<Seq<ListedBridge>> {
    match bridges {
        Some(bridges) => Some(bridges@),
        None => None,
    }
}

/// What the discovery service says: the status of its reply, and the bridges
/// that it lists where the reply is a list.
pub fn service_answer(status: u16, bridges: Option<&Vec<ListedBridge>>) -> (answer: ServiceAnswer)
    ensures
        match answer {
            ServiceAnswer::TooManyRequests => status == 429,
            ServiceAnswer::Found { address, id } => {
                &&& status != 429
                &&& bridges matches Some(bridges)
                &&& bridges@.len() > 0
                &&& address@ == bridges@[0].internalipaddress@
                &&& id@ == lowercase(bridges@[0].id@)
            },
            ServiceAnswer::Nothing => status != 429 && match bridges {
                Some(bridges) => bridges@.len() == 0,
                None => true,
            },
        },
        match offered(status, bridge_list(bridges)) {
            Some(bridge) => {
                &&& answer matches ServiceAnswer::Found { address, id }
                &&& address@ == bridge.internalipaddress@
                &&& id@ == lowercase(bridge.id@)
            },
            None => answer is TooManyRequests || answer is Nothing,
        },
{
    if status == 429 {
        return ServiceAnswer::TooManyRequests;
    }
    match bridges {
        Some(bridges) => if bridges.len() > 0 {
            ServiceAnswer::Found {
                address: bridges[0].internalipaddress.clone(),
                id: bridges[0].id.as_str().to_lowercase(),
            }
        } else {
            ServiceAnswer::Nothing
        },
        None => ServiceAnswer::Nothing,
    }
}

/// Where a bridge is asked for credentials.
pub fn link_url(bridge_id: &str) -> (url: String)
    ensures
        url@ == "https://"@ + bridge_id@ + "/api"@,
{
    let mut url: String = "https://".to_owned();
    url.append(bridge_id);
    url.append("/api");
    url
}

/// Where a bridge lists its Entertainment Areas.
pub fn areas_url(bridge_id: &str) -> (url: String)
    ensures
        url@ == "https://"@ + bridge_id@ + "/clip/v2/resource/entertainment_configuration"@,
{
    let mut url: String = "https://".to_owned();
    url.append(bridge_id);
    url.append("/clip/v2/resource/entertainment_configuration");
    url
}

/// Credentials that a bridge hands out.
#[derive(Debug)]
pub struct Credentials {
    pub username: String,
    pub client_key: String,
}

/// One reply to the request for credentials.
#[derive(Debug)]
pub struct LinkReply {
    pub success: Option<Credentials>,
    /// The description of an error.
    pub error: Option<String>,
}

/// How linking with a bridge goes on.
#[derive(Debug)]
pub enum LinkStep {
    /// The bridge has handed out credentials.
    Linked { username: String, client_key: String },
    /// It is asked again after a while.
    Wait,
}

/// A reply that only says that the button is yet to be pressed.
pub open spec fn is_button_pending(description: Seq<char>) -> bool {
    contains_text(description, "link button not pressed"@)
}

/// Whether the wizard goes on listening for bridges, in nanoseconds.
pub fn keeps_listening(elapsed: u128, limit: u128) -> (keeps: bool)
    ensures
        keeps == (elapsed < limit),
{
    elapsed < limit
}

/// Whether linking has taken too long, counted in nanoseconds.
pub fn check_link_time(elapsed: u128) -> (result: Result<(), SetupError>)
    ensures
        match result {
            Ok(_) => elapsed <= LINK_TIMEOUT,
            Err(error) => elapsed > LINK_TIMEOUT && error == SetupError::TimedOut,
        },
{
    if elapsed > LINK_TIMEOUT {
        Err(SetupError::TimedOut)
    } else {
        Ok(())
    }
}

/// The credentials in a bridge's replies.
pub open spec fn granted(replies: Seq<LinkReply>) -> Option<Credentials> {
    if replies.len() == 0 {
        None
    } else {
        replies[0].success
    }
}

/// The words with which a bridge's replies refuse for good.
pub open spec fn refused(replies: Seq<LinkReply>) -> Option<Seq<char>> {
    if replies.len() == 0 || replies[0].success is Some {
        None
    } else {
        match replies[0].error {
            Some(description) => if is_button_pending(description@) {
                None
            } else {
                Some(description@)
            },
            None => None,
        }
    }
}

/// How linking goes on after the bridge's replies, of which the first counts.
/// Any error but that the button is yet to be pressed ends it.
pub fn link_step(replies: &Vec<LinkReply>) -> (result: Result<LinkStep, SetupError>)
    ensures
        match result {
            Ok(LinkStep::Linked { username, client_key }) => {
                &&& replies@.len() > 0
                &&& replies@[0].success matches Some(credentials)
                &&& username@ == credentials.username@
                &&& client_key@ == credentials.client_key@
            },
            Ok(LinkStep::Wait) => replies@.len() == 0 || (replies@[0].success is None
                && match replies@[0].error {
                Some(description) => is_button_pending(description@),
                None => true,
            }),
            Err(SetupError::Refused(words)) => {
                &&& replies@.len() > 0
                &&& replies@[0].success is None
                &&& replies@[0].error matches Some(description)
                &&& !is_button_pending(description@)
                &&& words@ == description@
            },
            Err(_) => false,
        },
        match (granted(replies@), refused(replies@)) {
            (Some(credentials), _) => {
                &&& result matches Ok(LinkStep::Linked { username, client_key })
                &&& username@ == credentials.username@
                &&& client_key@ == credentials.client_key@
            },
            (None, Some(words)) => {
                &&& result matches Err(SetupError::Refused(said))
                &&& said@ == words
            },
            (None, None) => result matches Ok(LinkStep::Wait),
        },
{
    if replies.len() == 0 {
        return Ok(LinkStep::Wait);
    }
    if let Some(credentials) = &replies[0].success {
        return Ok(
            LinkStep::Linked {
                username: credentials.username.clone(),
                client_key: credentials.client_key.clone(),
            },
        );
    }
    if let Some(description) = &replies[0].error {
        if !contains(description.as_str(), "link button not pressed") {
            return Err(SetupError::Refused(description.clone()));
        }
    }
    Ok(LinkStep::Wait)
}

/// An Entertainment Area.
#[derive(Debug)]
pub struct Area {
    pub id: String,
    pub name: String,
}

/// The names of the areas.
pub open spec fn names(areas: Seq<Area>) -> Seq<String> {
    areas.map_values(|area: Area| area.name)
}

/// What an Entertainment Area is chosen from.
pub fn area_names(areas: &Vec<Area>) -> (result: Result<Vec<String>, SetupError>)
    ensures
        match result {
            Ok(list) => areas@.len() > 0 && list@ == names(areas@),
            Err(error) => areas@.len() == 0 && error == SetupError::NoAreas,
        },
{
    if areas.len() == 0 {
        return Err(SetupError::NoAreas);
    }
    let mut list: Vec<String> = Vec::new();
    let mut i: usize = 0;
    while i < areas.len()
        invariant
            i <= areas@.len(),
            list@ == names(areas@).take(i as int),
        decreases areas@.len() - i,
    {
        list.push(areas[i].name.clone());
        assert(list@ =~= names(areas@).take(i + 1));
        i += 1;
    }
    assert(names(areas@).take(i as int) =~= names(areas@));
    Ok(list)
}

/// The ID of the area that was chosen.
pub fn chosen_area(areas: &Vec<Area>, selection: usize) -> (id: String)
    requires
        selection < areas@.len(),
    ensures
        id@ == areas@[selection as int].id@,
{
    areas[selection].id.clone()
}

/// Whether there is a MIDI device to choose.
pub fn check_devices(devices: &Vec<String>) -> (result: Result<(), SetupError>)
    ensures
        match result {
            Ok(_) => devices@.len() > 0,
            Err(error) => devices@.len() == 0 && error == SetupError::NoMidiDevices,
        },
{
    if devices.len() == 0 {
        Err(SetupError::NoMidiDevices)
    } else {
        Ok(())
    }
}

/// A template without blanks is written as it is, whatever the answers.
pub proof fn law_rendering_changes_only_blanks(template: Seq<char>, answers: Answers)
    requires
        !contains_text(template, "{midi_device}"@),
        !contains_text(template, "{bridge_ip}"@),
        !contains_text(template, "{bridge_id}"@),
        !contains_text(template, "{username}"@),
        !contains_text(template, "{client_key}"@),
        !contains_text(template, "{area_id}"@),
    ensures
        rendered(template, answers) == template,
{
    lemma_replaced_absent(template, "{midi_device}"@, answers.midi_device@);
    lemma_replaced_absent(template, "{bridge_ip}"@, answers.bridge_ip@);
    lemma_replaced_absent(template, "{bridge_id}"@, answers.bridge_id@);
    lemma_replaced_absent(template, "{username}"@, answers.username@);
    lemma_replaced_absent(template, "{client_key}"@, answers.client_key@);
    lemma_replaced_absent(template, "{area_id}"@, answers.area_id@);
}

/// A text holds no opening brace.
pub open spec fn is_plain(text: Seq<char>) -> bool {
    forall|i: int| 0 <= i < text.len() ==> #[trigger] text[i] != '{'
}

/// A blank begins with an opening brace and holds no other.
spec fn is_blank(blank: Seq<char>) -> bool {
    blank.len() > 1 && blank[0] == '{' && is_plain(blank.skip(1))
}

/// A text without a brace holds no blank.
proof fn lemma_plain_holds_no_blank(text: Seq<char>, blank: Seq<char>)
    requires
        is_plain(text),
        is_blank(blank),
    ensures
        !contains_text(text, blank),
{
    assert forall|at: int| !occurs_at(text, blank, at) by {
        if occurs_at(text, blank, at) {
            assert(text.subrange(at, at + blank.len())[0] == text[at]);
        }
    }
}

/// A blank in an otherwise plain text is no occurrence of another blank.
proof fn lemma_other_blank(
    before: Seq<char>,
    blank: Seq<char>,
    after: Seq<char>,
    other: Seq<char>,
    k: int,
)
    requires
        is_plain(before),
        is_blank(blank),
        is_plain(after),
        is_blank(other),
        0 <= k < blank.len(),
        k < other.len(),
        blank[k] != other[k],
    ensures
        !contains_text(before + blank + after, other),
{
    let text = before + blank + after;
    assert forall|at: int| !occurs_at(text, other, at) by {
        if occurs_at(text, other, at) {
            let found = text.subrange(at, at + other.len());
            assert(found[0] == text[at]);
            lemma_one_brace(before, blank, after, at);
            assert(found[k] == text[at + k]);
            assert(text[at + k] == blank[k]);
        }
    }
}

/// The only brace in an otherwise plain text is the one that a blank begins with.
proof fn lemma_one_brace(before: Seq<char>, blank: Seq<char>, after: Seq<char>, at: int)
    requires
        is_plain(before),
        is_blank(blank),
        is_plain(after),
        0 <= at < (before + blank + after).len(),
        (before + blank + after)[at] == '{',
    ensures
        at == before.len(),
{
    let text = before + blank + after;
    if at < before.len() {
        assert(text[at] == before[at]);
    } else if at > before.len() {
        if at < before.len() + blank.len() {
            assert(text[at] == blank.skip(1)[at - before.len() - 1]);
        } else {
            assert(text[at] == after[at - before.len() - blank.len()]);
        }
    }
}

/// A blank in an otherwise plain text is replaced by its answer.
proof fn lemma_blank_is_filled(
    before: Seq<char>,
    blank: Seq<char>,
    after: Seq<char>,
    answer: Seq<char>,
)
    requires
        is_plain(before),
        is_blank(blank),
        is_plain(after),
        is_plain(answer),
    ensures
        replaced(before + blank + after, blank, answer) == before + answer + after,
        is_plain(before + answer + after),
{
    let text = before + blank + after;
    assert forall|at: int| 0 <= at < before.len() implies !#[trigger] occurs_at(
        text,
        blank,
        at,
    ) by {
        if occurs_at(text, blank, at) {
            assert(text.subrange(at, at + blank.len())[0] == text[at]);
        }
    }
    law_occurrences_are_replaced(before, blank, after, answer);
    lemma_plain_holds_no_blank(after, blank);
    lemma_replaced_absent(after, blank, answer);
}

/// The blanks of a template are blanks, and any two of them differ at their second
/// character or, those of a bridge's address and ID, at their tenth.
proof fn lemma_blanks()
    ensures
        is_blank("{midi_device}"@) && "{midi_device}"@[1] == 'm' && "{midi_device}"@.len() > 9,
        is_blank("{bridge_ip}"@) && "{bridge_ip}"@[1] == 'b' && "{bridge_ip}"@[9] == 'p'
            && "{bridge_ip}"@.len() > 9,
        is_blank("{bridge_id}"@) && "{bridge_id}"@[1] == 'b' && "{bridge_id}"@[9] == 'd'
            && "{bridge_id}"@.len() > 9,
        is_blank("{username}"@) && "{username}"@[1] == 'u' && "{username}"@.len() > 1,
        is_blank("{client_key}"@) && "{client_key}"@[1] == 'c' && "{client_key}"@.len() > 1,
        is_blank("{area_id}"@) && "{area_id}"@[1] == 'a' && "{area_id}"@.len() > 1,
{
    reveal_strlit("{midi_device}");
    reveal_strlit("{bridge_ip}");
    reveal_strlit("{bridge_id}");
    reveal_strlit("{username}");
    reveal_strlit("{client_key}");
    reveal_strlit("{area_id}");
}

/// No blank but the given ones is replaced in a text without braces.
proof fn lemma_plain_stays(text: Seq<char>, with: Seq<char>)
    requires
        is_plain(text),
    ensures
        replaced(text, "{midi_device}"@, with) == text,
        replaced(text, "{bridge_ip}"@, with) == text,
        replaced(text, "{bridge_id}"@, with) == text,
        replaced(text, "{username}"@, with) == text,
        replaced(text, "{client_key}"@, with) == text,
        replaced(text, "{area_id}"@, with) == text,
{
    lemma_blanks();
    lemma_plain_holds_no_blank(text, "{midi_device}"@);
    lemma_plain_holds_no_blank(text, "{bridge_ip}"@);
    lemma_plain_holds_no_blank(text, "{bridge_id}"@);
    lemma_plain_holds_no_blank(text, "{username}"@);
    lemma_plain_holds_no_blank(text, "{client_key}"@);
    lemma_plain_holds_no_blank(text, "{area_id}"@);
    lemma_replaced_absent(text, "{midi_device}"@, with);
    lemma_replaced_absent(text, "{bridge_ip}"@, with);
    lemma_replaced_absent(text, "{bridge_id}"@, with);
    lemma_replaced_absent(text, "{username}"@, with);
    lemma_replaced_absent(text, "{client_key}"@, with);
    lemma_replaced_absent(text, "{area_id}"@, with);
}

/// Each blank takes its own answer, and the text around it stays: in a template
/// with one blank and no other brace, the blank of the MIDI device, the bridge's
/// address, its ID, the username, the client key or the area becomes the answer of
/// that name, where the answers hold no brace.
pub proof fn law_each_blank_takes_its_answer(
    before: Seq<char>,
    after: Seq<char>,
    answers: Answers,
)
    requires
        is_plain(before),
        is_plain(after),
        is_plain(answers.midi_device@),
        is_plain(answers.bridge_ip@),
        is_plain(answers.bridge_id@),
        is_plain(answers.username@),
        is_plain(answers.client_key@),
        is_plain(answers.area_id@),
    ensures
        rendered(before + "{midi_device}"@ + after, answers) == before + answers.midi_device@
            + after,
        rendered(before + "{bridge_ip}"@ + after, answers) == before + answers.bridge_ip@ + after,
        rendered(before + "{bridge_id}"@ + after, answers) == before + answers.bridge_id@ + after,
        rendered(before + "{username}"@ + after, answers) == before + answers.username@ + after,
        rendered(before + "{client_key}"@ + after, answers) == before + answers.client_key@
            + after,
        rendered(before + "{area_id}"@ + after, answers) == before + answers.area_id@ + after,
{
    lemma_blanks();
    let (md, ip, id) = ("{midi_device}"@, "{bridge_ip}"@, "{bridge_id}"@);
    let (us, ck, ar) = ("{username}"@, "{client_key}"@, "{area_id}"@);
    lemma_blank_is_filled(before, md, after, answers.midi_device@);
    lemma_blank_is_filled(before, ip, after, answers.bridge_ip@);
    lemma_blank_is_filled(before, id, after, answers.bridge_id@);
    lemma_blank_is_filled(before, us, after, answers.username@);
    lemma_blank_is_filled(before, ck, after, answers.client_key@);
    lemma_blank_is_filled(before, ar, after, answers.area_id@);
    assert(rendered(before + md + after, answers) == before + answers.midi_device@ + after) by {
        let done = before + answers.midi_device@ + after;
        lemma_plain_stays(done, answers.bridge_ip@);
        lemma_plain_stays(done, answers.bridge_id@);
        lemma_plain_stays(done, answers.username@);
        lemma_plain_stays(done, answers.client_key@);
        lemma_plain_stays(done, answers.area_id@);
    }
    assert(rendered(before + ip + after, answers) == before + answers.bridge_ip@ + after) by {
        let done = before + answers.bridge_ip@ + after;
        lemma_other_blank(before, ip, after, md, 1);
        lemma_replaced_absent(before + ip + after, md, answers.midi_device@);
        lemma_plain_stays(done, answers.bridge_id@);
        lemma_plain_stays(done, answers.username@);
        lemma_plain_stays(done, answers.client_key@);
        lemma_plain_stays(done, answers.area_id@);
    }
    assert(rendered(before + id + after, answers) == before + answers.bridge_id@ + after) by {
        let done = before + answers.bridge_id@ + after;
        lemma_other_blank(before, id, after, md, 1);
        lemma_replaced_absent(before + id + after, md, answers.midi_device@);
        lemma_other_blank(before, id, after, ip, 9);
        lemma_replaced_absent(before + id + after, ip, answers.bridge_ip@);
        lemma_plain_stays(done, answers.username@);
        lemma_plain_stays(done, answers.client_key@);
        lemma_plain_stays(done, answers.area_id@);
    }
    assert(rendered(before + us + after, answers) == before + answers.username@ + after) by {
        let done = before + answers.username@ + after;
        lemma_other_blank(before, us, after, md, 1);
        lemma_replaced_absent(before + us + after, md, answers.midi_device@);
        lemma_other_blank(before, us, after, ip, 1);
        lemma_replaced_absent(before + us + after, ip, answers.bridge_ip@);
        lemma_other_blank(before, us, after, id, 1);
        lemma_replaced_absent(before + us + after, id, answers.bridge_id@);
        lemma_plain_stays(done, answers.client_key@);
        lemma_plain_stays(done, answers.area_id@);
    }
    assert(rendered(before + ck + after, answers) == before + answers.client_key@ + after) by {
        let done = before + answers.client_key@ + after;
        lemma_other_blank(before, ck, after, md, 1);
        lemma_replaced_absent(before + ck + after, md, answers.midi_device@);
        lemma_other_blank(before, ck, after, ip, 1);
        lemma_replaced_absent(before + ck + after, ip, answers.bridge_ip@);
        lemma_other_blank(before, ck, after, id, 1);
        lemma_replaced_absent(before + ck + after, id, answers.bridge_id@);
        lemma_other_blank(before, ck, after, us, 1);
        lemma_replaced_absent(before + ck + after, us, answers.username@);
        lemma_plain_stays(done, answers.area_id@);
    }
    assert(rendered(before + ar + after, answers) == before + answers.area_id@ + after) by {
        lemma_other_blank(before, ar, after, md, 1);
        lemma_replaced_absent(before + ar + after, md, answers.midi_device@);
        lemma_other_blank(before, ar, after, ip, 1);
        lemma_replaced_absent(before + ar + after, ip, answers.bridge_ip@);
        lemma_other_blank(before, ar, after, id, 1);
        lemma_replaced_absent(before + ar + after, id, answers.bridge_id@);
        lemma_other_blank(before, ar, after, us, 1);
        lemma_replaced_absent(before + ar + after, us, answers.username@);
        lemma_other_blank(before, ar, after, ck, 1);
        lemma_replaced_absent(before + ar + after, ck, answers.client_key@);
    }
}

/// The address to use is of version 4 where there is one such, and the first of
/// its version; where there is none it is the first of all.
pub proof fn law_version_4_comes_first(version_4: Seq<bool>, place: int, other: int)
    requires
        is_preferred(version_4, place),
        0 <= other < version_4.len(),
    ensures
        version_4[other] ==> version_4[place] && place <= other,
        !version_4[place] ==> place == 0,
{
}

/// The names of the areas are listed in their order, each its own, so that the one
/// that is chosen is the one that was named.
pub proof fn law_areas_are_listed_by_name(areas: Seq<Area>, i: int)
    requires
        0 <= i < areas.len(),
    ensures
        names(areas).len() == areas.len(),
        names(areas)[i] == areas[i].name,
{
}

/// A bridge waits for its button wherever in its words it says so.
pub proof fn law_pending_buttons_are_told_by_their_words(before: Seq<char>, after: Seq<char>)
    ensures
        is_button_pending(before + "link button not pressed"@ + after),
        !contains_text(before, "link button not pressed"@) ==> !is_button_pending(before),
{
    law_what_stands_in_a_text_is_found(before, "link button not pressed"@, after);
}

/// A bridge that announces its ID goes by that, whatever its name; one that does not
/// goes by its name up to the first dot, so that what follows the dot makes no
/// difference; and a name with neither dot nor space is the ID. Letters are lowered.
pub proof fn law_bridges_go_by_what_they_announce(
    bytes: Seq<u8>,
    name: Seq<char>,
    domain: Seq<char>,
)
    requires
        !name.contains('.'),
    ensures
        announced_id(Some(bytes), name) == lowercase(lossy_text(bytes)),
        announced_id(None, name + seq!['.'] + domain) == announced_id(None, name),
        !name.contains(' ') ==> announced_id(None, name) == lowercase(name),
{
    let full = name + seq!['.'] + domain;
    law_cutting_stops_at_the_first(full, '.');
    law_cutting_stops_at_the_first(name, '.');
    let (cut, whole) = (before_first(full, '.'), before_first(name, '.'));
    if whole.len() < name.len() {
        assert(name.contains(name[whole.len() as int]));
    }
    assert(whole =~= name);
    assert(full[name.len() as int] == '.');
    if cut.len() > name.len() {
        assert(cut[name.len() as int] == '.');
        assert(cut.contains('.'));
    }
    if cut.len() < name.len() {
        assert(full[cut.len() as int] == name[cut.len() as int]);
        assert(name.contains('.'));
    }
    assert(cut =~= name);
    if !name.contains(' ') {
        reveal_strlit(" ");
        assert forall|at: int| !occurs_at(name, " "@, at) by {
            if occurs_at(name, " "@, at) {
                assert(name.subrange(at, at + 1)[0] == name[at]);
                assert(name.contains(' '));
            }
        }
        lemma_replaced_absent(name, " "@, "-"@);
    }
}

/// A name with a space has a hyphen there instead in its ID.
pub proof fn law_spaces_become_hyphens(before: Seq<char>, after: Seq<char>)
    requires
        !before.contains(' ') && !before.contains('.'),
        !after.contains(' ') && !after.contains('.'),
    ensures
        announced_id(None, before + seq![' '] + after) == lowercase(before + seq!['-'] + after),
{
    reveal_strlit(" ");
    reveal_strlit("-");
    assert(" "@ =~= seq![' ']);
    assert("-"@ =~= seq!['-']);
    let name = before + seq![' '] + after;
    law_cutting_stops_at_the_first(name, '.');
    let cut = before_first(name, '.');
    if cut.len() < name.len() {
        let k = cut.len() as int;
        if k < before.len() {
            assert(before[k] == '.');
        } else if k > before.len() {
            assert(after[k - before.len() - 1] == '.');
        }
    }
    assert(cut =~= name);
    assert forall|at: int| 0 <= at < before.len() implies !#[trigger] occurs_at(
        name,
        " "@,
        at,
    ) by {
        if occurs_at(name, " "@, at) {
            assert(name.subrange(at, at + 1)[0] == before[at]);
        }
    }
    law_occurrences_are_replaced(before, " "@, after, "-"@);
    assert forall|at: int| !occurs_at(after, " "@, at) by {
        if occurs_at(after, " "@, at) {
            assert(after.subrange(at, at + 1)[0] == after[at]);
        }
    }
    lemma_replaced_absent(after, " "@, "-"@);
}

/// The service offers the first bridge that it lists, whatever follows it, and none
/// where it lists none, gives no list or was asked too often.
pub proof fn law_first_listed_bridge_is_offered(
    status: u16,
    bridge: ListedBridge,
    rest: Seq<ListedBridge>,
)
    ensures
        status != 429 ==> offered(status, Some(seq![bridge] + rest)) == Some(bridge),
        offered(429, Some(seq![bridge] + rest)) is None,
        offered(status, Some(Seq::empty())) is None,
        offered(status, None) is None,
{
}

/// A bridge that hands out credentials has linked, whatever else it says; one that
/// only waits for its button, or says nothing, neither links nor refuses; and any
/// other error refuses in the bridge's own words.
pub proof fn law_bridges_grant_wait_or_refuse(
    credentials: Credentials,
    error: Option<String>,
    description: String,
    rest: Seq<LinkReply>,
)
    ensures
        granted(seq![LinkReply { success: Some(credentials), error }] + rest) == Some(credentials),
        ({
            let replies = seq![LinkReply { success: None, error: Some(description) }] + rest;
            &&& granted(replies) is None
            &&& contains_text(description@, "link button not pressed"@) ==> refused(replies) is None
            &&& !contains_text(description@, "link button not pressed"@) ==> refused(replies)
                == Some(description@)
        }),
        ({
            let replies = seq![LinkReply { success: None, error: None }] + rest;
            granted(replies) is None && refused(replies) is None
        }),
        granted(Seq::empty()) is None && refused(Seq::empty()) is None,
{
}

/// A bridge is looked for by the ID that it announces, in any case of letters: it is
/// the one that is meant exactly where the ID under which it would be set up is the
/// given one in lower case, whatever its name.
pub proof fn law_bridges_are_found_under_their_id(
    bytes: Seq<u8>,
    name: Seq<char>,
    target_id: Seq<char>,
    same_id: Seq<char>,
)
    ensures
        is_target(Some(bytes), target_id) <==> announced_id(Some(bytes), name) == lowercase(
            target_id,
        ),
        lowercase(target_id) == lowercase(same_id) ==> is_target(Some(bytes), target_id)
            == is_target(Some(bytes), same_id),
        lowercase(target_id).len() > 0 ==> !is_target(None, target_id),
{
}

} // verus!
