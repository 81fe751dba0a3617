//! Checking a configuration before it is run.

use crate::config::{
    is_defined, is_fault, is_linked, law_linked_is_distinct_and_defined, ConfigError,
    DmxOutputDefinition, PulsePlexConfig, TargetConfig,
};
use crate::text::{contains_text, decimal, law_what_stands_in_a_text_is_found, push_decimal};
use std::collections::HashMap;
use vstd::prelude::*;

verus! {

broadcast use vstd::std_specs::hash::group_hash_axioms;

/// The last channel of a universe.
pub const LAST_CHANNEL: usize = 511;

/// What form the address of an Art-Net target has.
#[derive(Debug, Clone, Copy, PartialEq, Eq, Structural)]
pub enum AddressForm {
    /// An IP address and a port.
    Literal,
    /// Something that resolves to an address.
    Hostname,
    /// Neither.
    Invalid,
}

/// Why a configuration does not pass.
#[derive(Debug)]
pub enum CheckFailure {
    /// It does not compile.
    Link(ConfigError),
    /// There is nothing to send frames to.
    NoTargets,
    /// This is no address.
    Address(String),
    /// A channel lies outside the universe.
    Channels,
}

impl CheckFailure {
    /// The failure in words.
    pub open spec fn text(self) -> Seq<char> {
        match self {
            CheckFailure::Link(error) => "Configuration Error: "@ + error.text(),
            CheckFailure::NoTargets => "Error: No lighting targets configured."@,
            CheckFailure::Address(target_ip) => "Network: Invalid target_ip format '"@ + target_ip@
                + "'"@,
            CheckFailure::Channels => "Configuration check failed due to DMX errors."@,
        }
    }

    /// The failure in words.
    pub fn message(&self) -> (message: String)
        ensures
            message@ == self.text(),
    {
        match self {
            CheckFailure::Link(error) => {
                let mut message: String = "Configuration Error: ".to_owned();
                message.append(error.message().as_str());
                message
            },
            CheckFailure::NoTargets => "Error: No lighting targets configured.".to_owned(),
            CheckFailure::Address(target_ip) => {
                let mut message: String = "Network: Invalid target_ip format '".to_owned();
                message.append(target_ip.as_str());
                message.append("'");
                message
            },
            CheckFailure::Channels => "Configuration check failed due to DMX errors.".to_owned(),
        }
    }
}

/// Whether a configuration compiles and has a target.
pub fn check_links(config: &PulsePlexConfig) -> (result: Result<(), CheckFailure>)
    ensures
        match result {
            Ok(_) => is_linked(*config) && config.targets@.len() > 0,
            Err(CheckFailure::Link(error)) => is_fault(*config, error),
            Err(CheckFailure::NoTargets) => is_linked(*config) && config.targets@.len() == 0,
            Err(_) => false,
        },
{
    match config.compile() {
        Ok(_) => {},
        Err(error) => {
            return Err(CheckFailure::Link(error));
        },
    }
    if config.targets.len() == 0 {
        return Err(CheckFailure::NoTargets);
    }
    Ok(())
}

/// What is said of a target that passes. The form only counts for Art-Net.
pub open spec fn target_notice(target: TargetConfig, form: AddressForm) -> Seq<char> {
    match target {
        TargetConfig::ArtNet(artnet) => if form == AddressForm::Literal {
            "Network (Art-Net): Target IP/Port format is valid"@
        } else {
            "Network: '"@ + artnet.target_ip@
                + "' is a valid hostname/shorthand, but not a literal IP"@
        },
        TargetConfig::Hue(hue) => "Network (Hue): bridge_ip="@ + hue.bridge_ip@ + ", area_id="@
            + hue.area_id@,
    }
}

/// Whether a target can be sent to, given what form its address has.
pub fn check_target(target: &TargetConfig, form: AddressForm) -> (result: Result<
    String,
    CheckFailure,
>)
    ensures
        match result {
            Ok(notice) => (target is Hue || form != AddressForm::Invalid) && notice@
                == target_notice(*target, form),
            Err(CheckFailure::Address(address)) => {
                &&& form == AddressForm::Invalid
                &&& target matches TargetConfig::ArtNet(artnet)
                &&& address@ == artnet.target_ip@
            },
            Err(_) => false,
        },
{
    match target {
        TargetConfig::ArtNet(artnet) => match form {
            AddressForm::Literal => Ok(
                "Network (Art-Net): Target IP/Port format is valid".to_owned(),
            ),
            AddressForm::Hostname => {
                let mut notice: String = "Network: '".to_owned();
                notice.append(artnet.target_ip.as_str());
                notice.append("' is a valid hostname/shorthand, but not a literal IP");
                Ok(notice)
            },
            AddressForm::Invalid => Err(CheckFailure::Address(artnet.target_ip.clone())),
        },
        TargetConfig::Hue(hue) => {
            let mut notice: String = "Network (Hue): bridge_ip=".to_owned();
            notice.append(hue.bridge_ip.as_str());
            notice.append(", area_id=");
            notice.append(hue.area_id.as_str());
            Ok(notice)
        },
    }
}

/// Something wrong with the channels of the DMX outputs.
#[derive(Debug)]
pub enum ChannelFinding {
    /// An output reaches past the last channel.
    OutOfRange { id: String, channel: usize },
    /// An output takes a channel that another already has.
    Collision { channel: usize, other: String, id: String },
}

impl ChannelFinding {
    /// The finding in words.
    pub open spec fn text(self) -> Seq<char> {
        match self {
            ChannelFinding::OutOfRange { id, channel } => "DMX: ID "@ + id@ + " (channel "@
                + decimal(channel as nat) + ") exceeds universe limit (511)"@,
            ChannelFinding::Collision { channel, other, id } => "DMX Collision: Channel "@
                + decimal(channel as nat) + " is used by both ID '"@ + other@ + "' and ID '"@ + id@
                + "'"@,
        }
    }

    /// The finding in words.
    pub fn message(&self) -> (message: String)
        ensures
            message@ == self.text(),
    {
        match self {
            ChannelFinding::OutOfRange { id, channel } => {
                let mut message: String = "DMX: ID ".to_owned();
                message.append(id.as_str());
                message.append(" (channel ");
                push_decimal(&mut message, *channel as u64);
                message.append(") exceeds universe limit (511)");
                message
            },
            ChannelFinding::Collision { channel, other, id } => {
                let mut message: String = "DMX Collision: Channel ".to_owned();
                push_decimal(&mut message, *channel as u64);
                message.append(" is used by both ID '");
                message.append(other.as_str());
                message.append("' and ID '");
                message.append(id.as_str());
                message.append("'");
                message
            },
        }
    }
}

/// How many channels an output takes.
pub open spec fn span(output: DmxOutputDefinition) -> nat {
    if output.color is Some {
        3
    } else {
        1
    }
}

/// The channels that one output takes, each with the output's ID.
pub open spec fn claims_of(output: DmxOutputDefinition) -> Seq<(usize, String)> {
    Seq::new(span(output), |offset: int| ((output.channel + offset) as usize, output.id))
}

/// The channels that the outputs take, in order.
pub open spec fn claims(outputs: Seq<DmxOutputDefinition>) -> Seq<(usize, String)>
    decreases outputs.len(),
{
    if outputs.len() == 0 {
        Seq::empty()
    } else {
        claims(outputs.drop_last()) + claims_of(outputs.last())
    }
}

/// Who took a channel last.
pub open spec fn holder(claims: Seq<(usize, String)>, channel: usize) -> Option<String>
    decreases claims.len(),
{
    if claims.len() == 0 {
        None
    } else if claims.last().0 == channel {
        Some(claims.last().1)
    } else {
        holder(claims.drop_last(), channel)
    }
}

/// What is wrong with a claim that comes after others.
pub open spec fn findings_at(
    earlier: Seq<(usize, String)>,
    claim: (usize, String),
) -> Seq<ChannelFinding> {
    let (channel, id) = claim;
    let range = if channel > LAST_CHANNEL {
        seq![ChannelFinding::OutOfRange { id, channel }]
    } else {
        Seq::empty()
    };
    let sharing = match holder(earlier, channel) {
        Some(other) => seq![ChannelFinding::Collision { channel, other, id }],
        None => Seq::empty(),
    };
    range + sharing
}

/// What is wrong with a list of claims, in order.
pub open spec fn findings(claims: Seq<(usize, String)>) -> Seq<ChannelFinding>
    decreases claims.len(),
{
    if claims.len() == 0 {
        Seq::empty()
    } else {
        findings(claims.drop_last()) + findings_at(claims.drop_last(), claims.last())
    }
}

/// No channel number of an output overflows.
pub open spec fn countable(outputs: Seq<DmxOutputDefinition>) -> bool {
    forall|i: int|
        0 <= i < outputs.len() ==> (#[trigger] outputs[i]).channel + span(outputs[i])
            <= usize::MAX + 1
}

/// The map holds, for a channel that is taken, the output that took it last.
spec fn tracks_channel(
    used: Map<usize, usize>,
    outputs: Seq<DmxOutputDefinition>,
    done: Seq<(usize, String)>,
    channel: usize,
) -> bool {
    match holder(done, channel) {
        Some(id) => used.contains_key(channel) && used[channel] < outputs.len()
            && outputs[used[channel] as int].id == id,
        None => !used.contains_key(channel),
    }
}

/// The map holds the last taker of every channel that is taken.
spec fn tracks(
    used: Map<usize, usize>,
    outputs: Seq<DmxOutputDefinition>,
    done: Seq<(usize, String)>,
) -> bool {
    forall|channel: usize| #[trigger] tracks_channel(used, outputs, done, channel)
}

/// All that is wrong with the channels of the outputs.
pub fn check_channels(outputs: &Vec<DmxOutputDefinition>) -> (found: Vec<ChannelFinding>)
    requires
        countable(outputs@),
    ensures
        found@ == findings(claims(outputs@)),
{
    let mut found: Vec<ChannelFinding> = Vec::new();
    let mut used: HashMap<usize, usize> = HashMap::new();
    let mut i: usize = 0;
    let ghost mut done: Seq<(usize, String)> = Seq::empty();
    while i < outputs.len()
        invariant
            i <= outputs@.len(),
            countable(outputs@),
            done == claims(outputs@.take(i as int)),
            found@ == findings(done),
            tracks(used@, outputs@, done),
        decreases outputs@.len() - i,
    {
        let output: &DmxOutputDefinition = &outputs[i];
        let ghost before = done;
        let ghost new = claims_of(*output);
        let width: usize = if output.color.is_some() {
            3
        } else {
            1
        };
        let mut offset: usize = 0;
        assert(before + new.take(0) =~= before);
        while offset < width
            invariant
                i < outputs@.len(),
                countable(outputs@),
                *output == outputs@[i as int],
                new == claims_of(*output),
                width == span(*output),
                offset <= width,
                done == before + new.take(offset as int),
                found@ == findings(done),
                tracks(used@, outputs@, done),
            decreases width - offset,
        {
            let channel: usize = output.channel + offset;
            let ghost earlier = done;
            let ghost claim = (channel, output.id);
            let ghost held = used@;
            proof {
                done = earlier.push(claim);
                assert(new[offset as int] == claim);
                assert(done =~= before + new.take(offset + 1));
                assert(done.drop_last() =~= earlier);
            }
            let ghost reported = found@;
            if channel > LAST_CHANNEL {
                found.push(ChannelFinding::OutOfRange { id: output.id.clone(), channel });
            }
            assert(tracks_channel(held, outputs@, earlier, channel));
            if let Some(other) = used.insert(channel, i) {
                found.push(
                    ChannelFinding::Collision {
                        channel,
                        other: outputs[other].id.clone(),
                        id: output.id.clone(),
                    },
                );
            }
            assert(found@ =~= reported + findings_at(earlier, claim));
            assert forall|c: usize| #[trigger] tracks_channel(used@, outputs@, done, c) by {
                assert(tracks_channel(held, outputs@, earlier, c));
            }
            offset += 1;
        }
        proof {
            assert(new.take(offset as int) =~= new);
            assert(outputs@.take(i + 1).drop_last() =~= outputs@.take(i as int));
        }
        i += 1;
    }
    assert(outputs@.take(i as int) =~= outputs@);
    found
}

/// One of the findings is an error. Taking a channel twice is none.
pub open spec fn has_error(found: Seq<ChannelFinding>) -> bool {
    exists|i: int| 0 <= i < found.len() && #[trigger] found[i] is OutOfRange
}

/// Whether the findings let a configuration pass.
pub fn conclude(found: &Vec<ChannelFinding>) -> (result: Result<(), CheckFailure>)
    ensures
        match result {
            Ok(_) => !has_error(found@),
            Err(failure) => has_error(found@) && failure == CheckFailure::Channels,
        },
{
    let mut i: usize = 0;
    while i < found.len()
        invariant
            i <= found@.len(),
            forall|j: int| 0 <= j < i ==> !(#[trigger] found@[j] is OutOfRange),
        decreases found@.len() - i,
    {
        if let ChannelFinding::OutOfRange { .. } = &found[i] {
            assert(found@[i as int] is OutOfRange);
            return Err(CheckFailure::Channels);
        }
        i += 1;
    }
    Ok(())
}

/// A target cannot be sent to: it is an Art-Net one and its address no address.
pub open spec fn is_unreachable(target: TargetConfig, form: AddressForm) -> bool {
    target is ArtNet && form == AddressForm::Invalid
}

/// The first target that cannot be sent to.
pub open spec fn is_first_unreachable(
    targets: Seq<TargetConfig>,
    forms: Seq<AddressForm>,
    i: int,
) -> bool {
    &&& 0 <= i < targets.len()
    &&& is_unreachable(targets[i], forms[i])
    &&& forall|j: int| 0 <= j < i ==> !#[trigger] is_unreachable(targets[j], forms[j])
}

/// Every target can be sent to.
pub open spec fn all_reachable(targets: Seq<TargetConfig>, forms: Seq<AddressForm>) -> bool {
    forall|j: int| 0 <= j < targets.len() ==> !#[trigger] is_unreachable(targets[j], forms[j])
}

/// A configuration passes.
pub open spec fn passes(config: PulsePlexConfig, forms: Seq<AddressForm>) -> bool {
    &&& is_linked(config)
    &&& config.targets@.len() > 0
    &&& all_reachable(config.targets@, forms)
    &&& !has_error(findings(claims(config.output.dmx@)))
}

/// Checks a whole configuration, given what form the address of each target
/// has. It passes where it is linked, has a target, every target can be sent to
/// and every output ends within the universe, with what is to be said of the
/// channels; otherwise the first of these that fails is told.
pub fn check_config(config: &PulsePlexConfig, forms: &Vec<AddressForm>) -> (result: Result<
    Vec<ChannelFinding>,
    CheckFailure,
>)
    requires
        forms@.len() == config.targets@.len(),
        countable(config.output.dmx@),
    ensures
        result is Ok <==> passes(*config, forms@),
        ({
            let targets = config.targets@;
            let found = findings(claims(config.output.dmx@));
            match result {
                Ok(list) => {
                    &&& is_linked(*config)
                    &&& targets.len() > 0
                    &&& all_reachable(targets, forms@)
                    &&& !has_error(found)
                    &&& list@ == found
                },
                Err(CheckFailure::Link(error)) => is_fault(*config, error),
                Err(CheckFailure::NoTargets) => is_linked(*config) && targets.len() == 0,
                Err(CheckFailure::Address(address)) => {
                    &&& is_linked(*config)
                    &&& exists|i: int|
                        #![trigger targets[i]]
                        is_first_unreachable(targets, forms@, i) && address@
                            == targets[i]->ArtNet_0.target_ip@
                },
                Err(CheckFailure::Channels) => {
                    &&& is_linked(*config)
                    &&& targets.len() > 0
                    &&& all_reachable(targets, forms@)
                    &&& has_error(found)
                },
            }
        }),
{
    check_links(config)?;
    let mut i: usize = 0;
    while i < config.targets.len()
        invariant
            i <= config.targets@.len(),
            forms@.len() == config.targets@.len(),
            is_linked(*config),
            forall|j: int|
                0 <= j < i ==> !#[trigger] is_unreachable(config.targets@[j], forms@[j]),
        decreases config.targets@.len() - i,
    {
        match check_target(&config.targets[i], forms[i]) {
            Ok(_) => {},
            Err(failure) => {
                assert(is_first_unreachable(config.targets@, forms@, i as int));
                return Err(failure);
            },
        }
        i += 1;
    }
    let found: Vec<ChannelFinding> = check_channels(&config.output.dmx);
    conclude(&found)?;
    Ok(found)
}

/// A claim past the last channel is an error, and nothing else is.
proof fn lemma_errors(claims: Seq<(usize, String)>)
    ensures
        has_error(findings(claims)) <==> exists|i: int|
            0 <= i < claims.len() && (#[trigger] claims[i]).0 > LAST_CHANNEL,
    decreases claims.len(),
{
    if claims.len() > 0 {
        let (rest, claim) = (claims.drop_last(), claims.last());
        lemma_errors(rest);
        let (older, newer) = (findings(rest), findings_at(rest, claim));
        let all = findings(claims);
        assert(all == older + newer);
        if has_error(older) {
            let i = choose|i: int| 0 <= i < older.len() && #[trigger] older[i] is OutOfRange;
            assert(all[i] is OutOfRange);
            let k = choose|i: int| 0 <= i < rest.len() && (#[trigger] rest[i]).0 > LAST_CHANNEL;
            assert(claims[k].0 > LAST_CHANNEL);
        }
        if claim.0 > LAST_CHANNEL {
            assert(newer[0] is OutOfRange);
            assert(all[older.len() as int] is OutOfRange);
            assert(claims[claims.len() - 1].0 > LAST_CHANNEL);
        }
        if has_error(all) {
            let i = choose|i: int| 0 <= i < all.len() && #[trigger] all[i] is OutOfRange;
            if i < older.len() {
                assert(older[i] is OutOfRange);
            } else {
                assert(newer[i - older.len()] is OutOfRange);
                assert(claim.0 > LAST_CHANNEL);
            }
        }
        if exists|i: int| 0 <= i < claims.len() && (#[trigger] claims[i]).0 > LAST_CHANNEL {
            let k = choose|i: int| 0 <= i < claims.len() && (#[trigger] claims[i]).0 > LAST_CHANNEL;
            if k < rest.len() {
                assert(rest[k].0 > LAST_CHANNEL);
                let i = choose|i: int| 0 <= i < older.len() && #[trigger] older[i] is OutOfRange;
                assert(all[i] is OutOfRange);
            }
        }
    }
}

/// Each output's channels are among the claims.
proof fn lemma_claims(outputs: Seq<DmxOutputDefinition>)
    requires
        countable(outputs),
    ensures
        (exists|k: int| 0 <= k < claims(outputs).len() && (#[trigger] claims(outputs)[k]).0
            > LAST_CHANNEL) <==> exists|i: int|
            0 <= i < outputs.len() && (#[trigger] outputs[i]).channel + span(outputs[i])
                > LAST_CHANNEL + 1,
    decreases outputs.len(),
{
    if outputs.len() > 0 {
        let (rest, output) = (outputs.drop_last(), outputs.last());
        assert(countable(rest)) by {
            assert forall|i: int| 0 <= i < rest.len() implies (#[trigger] rest[i]).channel + span(
                rest[i],
            ) <= usize::MAX + 1 by {
                assert(rest[i] == outputs[i]);
            }
        }
        lemma_claims(rest);
        let (older, newer, all) = (claims(rest), claims_of(output), claims(outputs));
        assert(all == older + newer);
        let top = span(output) - 1;
        if output.channel + span(output) > LAST_CHANNEL + 1 {
            assert(newer[top].0 > LAST_CHANNEL);
            assert(all[older.len() + top].0 > LAST_CHANNEL);
            assert(outputs[outputs.len() - 1] == output);
        }
        if exists|k: int| 0 <= k < older.len() && (#[trigger] older[k]).0 > LAST_CHANNEL {
            let k = choose|k: int| 0 <= k < older.len() && (#[trigger] older[k]).0 > LAST_CHANNEL;
            assert(all[k].0 > LAST_CHANNEL);
            let i = choose|i: int|
                0 <= i < rest.len() && (#[trigger] rest[i]).channel + span(rest[i]) > LAST_CHANNEL
                    + 1;
            assert(outputs[i] == rest[i]);
        }
        if exists|k: int| 0 <= k < all.len() && (#[trigger] all[k]).0 > LAST_CHANNEL {
            let k = choose|k: int| 0 <= k < all.len() && (#[trigger] all[k]).0 > LAST_CHANNEL;
            if k < older.len() {
                assert(older[k].0 > LAST_CHANNEL);
            } else {
                assert(newer[k - older.len()].0 > LAST_CHANNEL);
                assert(outputs[outputs.len() - 1] == output);
            }
        }
        if exists|i: int|
            0 <= i < outputs.len() && (#[trigger] outputs[i]).channel + span(outputs[i])
                > LAST_CHANNEL + 1 {
            let i = choose|i: int|
                0 <= i < outputs.len() && (#[trigger] outputs[i]).channel + span(outputs[i])
                    > LAST_CHANNEL + 1;
            if i < rest.len() {
                assert(rest[i] == outputs[i]);
                let k = choose|k: int|
                    0 <= k < older.len() && (#[trigger] older[k]).0 > LAST_CHANNEL;
                assert(all[k].0 > LAST_CHANNEL);
            }
        }
    }
}

/// The outputs pass exactly where each of them ends within the universe.
pub proof fn law_outputs_pass_within_universe(outputs: Seq<DmxOutputDefinition>)
    requires
        countable(outputs),
    ensures
        has_error(findings(claims(outputs))) <==> exists|i: int|
            0 <= i < outputs.len() && (#[trigger] outputs[i]).channel + span(outputs[i])
                > LAST_CHANNEL + 1,
{
    lemma_errors(claims(outputs));
    lemma_claims(outputs);
}

/// A channel is held exactly where some claim is for it.
proof fn lemma_holder(claims: Seq<(usize, String)>, channel: usize)
    ensures
        holder(claims, channel) is Some <==> exists|i: int|
            0 <= i < claims.len() && (#[trigger] claims[i]).0 == channel,
    decreases claims.len(),
{
    if claims.len() > 0 {
        let rest = claims.drop_last();
        lemma_holder(rest, channel);
        if holder(rest, channel) is Some {
            let i = choose|i: int| 0 <= i < rest.len() && (#[trigger] rest[i]).0 == channel;
            assert(claims[i].0 == channel);
        }
        if claims.last().0 == channel {
            assert(claims[claims.len() - 1].0 == channel);
        } else if exists|i: int| 0 <= i < claims.len() && (#[trigger] claims[i]).0 == channel {
            let i = choose|i: int| 0 <= i < claims.len() && (#[trigger] claims[i]).0 == channel;
            assert(rest[i].0 == channel);
        }
    }
}

/// Two claims are for one channel.
pub open spec fn shares_channel(claims: Seq<(usize, String)>, i: int, j: int) -> bool {
    0 <= i < j < claims.len() && claims[i].0 == claims[j].0
}

/// A collision is found exactly where two claims are for one channel.
pub proof fn law_collisions_are_shared_channels(claims: Seq<(usize, String)>)
    ensures
        (exists|k: int| 0 <= k < findings(claims).len() && #[trigger] findings(claims)[k]
            is Collision) <==> exists|i: int, j: int| #[trigger] shares_channel(claims, i, j),
    decreases claims.len(),
{
    if claims.len() > 0 {
        let (rest, claim) = (claims.drop_last(), claims.last());
        law_collisions_are_shared_channels(rest);
        lemma_holder(rest, claim.0);
        let (older, newer) = (findings(rest), findings_at(rest, claim));
        let all = findings(claims);
        let last = claims.len() - 1;
        assert(all == older + newer);
        if exists|i: int, j: int| #[trigger] shares_channel(rest, i, j) {
            let (i, j) = choose|i: int, j: int| #[trigger] shares_channel(rest, i, j);
            assert(shares_channel(claims, i, j));
            let k = choose|k: int| 0 <= k < older.len() && #[trigger] older[k] is Collision;
            assert(all[k] is Collision);
        }
        if holder(rest, claim.0) is Some {
            let i = choose|i: int| 0 <= i < rest.len() && (#[trigger] rest[i]).0 == claim.0;
            assert(shares_channel(claims, i, last));
            assert(newer[newer.len() - 1] is Collision);
            assert(all[all.len() - 1] is Collision);
        }
        if exists|k: int| 0 <= k < all.len() && #[trigger] all[k] is Collision {
            let k = choose|k: int| 0 <= k < all.len() && #[trigger] all[k] is Collision;
            if k < older.len() {
                assert(older[k] is Collision);
            } else {
                assert(newer[k - older.len()] is Collision);
                assert(holder(rest, claim.0) is Some);
            }
        }
        if exists|i: int, j: int| #[trigger] shares_channel(claims, i, j) {
            let (i, j) = choose|i: int, j: int| #[trigger] shares_channel(claims, i, j);
            if j < last {
                assert(shares_channel(rest, i, j));
            } else {
                assert(rest[i].0 == claim.0);
            }
        }
    }
}

/// An output lies within the universe where it ends at channel 511 at the latest:
/// without a color it takes one channel, and with one three in a row.
pub proof fn law_outputs_pass_up_to_channel_511(outputs: Seq<DmxOutputDefinition>)
    requires
        countable(outputs),
    ensures
        has_error(findings(claims(outputs))) <==> exists|i: int|
            {
                &&& 0 <= i < outputs.len()
                &&& (#[trigger] outputs[i]).channel > 511 || (outputs[i].color is Some
                    && outputs[i].channel + 2 > 511)
            },
{
    law_outputs_pass_within_universe(outputs);
    if has_error(findings(claims(outputs))) {
        let i = choose|i: int|
            0 <= i < outputs.len() && (#[trigger] outputs[i]).channel + span(outputs[i])
                > LAST_CHANNEL + 1;
        assert(outputs[i].channel > 511 || (outputs[i].color is Some && outputs[i].channel + 2
            > 511));
    }
    if exists|i: int|
        {
            &&& 0 <= i < outputs.len()
            &&& (#[trigger] outputs[i]).channel > 511 || (outputs[i].color is Some
                && outputs[i].channel + 2 > 511)
        } {
        let i = choose|i: int|
            {
                &&& 0 <= i < outputs.len()
                &&& (#[trigger] outputs[i]).channel > 511 || (outputs[i].color is Some
                    && outputs[i].channel + 2 > 511)
            };
        assert(outputs[i].channel + span(outputs[i]) > LAST_CHANNEL + 1);
    }
}

/// An output takes a channel: it begins there, or it has a color and the channel
/// is one of the two after.
pub open spec fn takes(output: DmxOutputDefinition, channel: int) -> bool {
    channel == output.channel || (output.color is Some && output.channel < channel
        <= output.channel + 2)
}

/// The claims are exactly the channels that the outputs take, each under the ID of
/// its output.
pub proof fn law_claims_are_what_outputs_take(
    outputs: Seq<DmxOutputDefinition>,
    channel: usize,
    id: String,
)
    requires
        countable(outputs),
    ensures
        claims(outputs).contains((channel, id)) <==> exists|i: int|
            0 <= i < outputs.len() && takes(#[trigger] outputs[i], channel as int) && outputs[i].id
                == id,
    decreases outputs.len(),
{
    if outputs.len() > 0 {
        let (rest, output, end) = (outputs.drop_last(), outputs.last(), outputs.len() - 1);
        assert(countable(rest)) by {
            assert forall|i: int| 0 <= i < rest.len() implies (#[trigger] rest[i]).channel + span(
                rest[i],
            ) <= usize::MAX + 1 by {
                assert(rest[i] == outputs[i]);
            }
        }
        assert(output == outputs[end]);
        law_claims_are_what_outputs_take(rest, channel, id);
        let (older, newer, all) = (claims(rest), claims_of(output), claims(outputs));
        let claim = (channel, id);
        if takes(output, channel as int) && output.id == id {
            let offset = channel - output.channel;
            assert(newer[offset] == claim);
            assert(all[older.len() + offset] == claim);
        }
        if older.contains(claim) {
            let k = choose|k: int| 0 <= k < older.len() && older[k] == claim;
            assert(all[k] == claim);
            let i = choose|i: int|
                0 <= i < rest.len() && takes(#[trigger] rest[i], channel as int) && rest[i].id
                    == id;
            assert(takes(outputs[i], channel as int) && outputs[i].id == id);
        }
        if all.contains(claim) {
            let k = choose|k: int| 0 <= k < all.len() && all[k] == claim;
            if k < older.len() {
                assert(older[k] == claim);
            } else {
                assert(newer[k - older.len()] == claim);
                assert(takes(outputs[end], channel as int) && outputs[end].id == id);
            }
        }
        if exists|i: int|
            0 <= i < outputs.len() && takes(#[trigger] outputs[i], channel as int) && outputs[i].id
                == id {
            let i = choose|i: int|
                0 <= i < outputs.len() && takes(#[trigger] outputs[i], channel as int)
                    && outputs[i].id == id;
            if i < end {
                assert(takes(rest[i], channel as int) && rest[i].id == id);
            }
        }
    }
}

/// A finding is true of a list of claims: an output that claims a channel past 511,
/// or one that claims a channel after another has.
pub open spec fn is_true_finding(claims: Seq<(usize, String)>, finding: ChannelFinding) -> bool {
    match finding {
        ChannelFinding::OutOfRange { id, channel } => channel > 511 && claims.contains(
            (channel, id),
        ),
        ChannelFinding::Collision { channel, other, id } => exists|i: int, j: int|
            0 <= i < j < claims.len() && #[trigger] claims[i] == (channel, other)
                && #[trigger] claims[j] == (channel, id),
    }
}

/// Whoever holds a channel has claimed it.
proof fn lemma_holder_claimed(claims: Seq<(usize, String)>, channel: usize)
    ensures
        holder(claims, channel) matches Some(id) ==> exists|i: int|
            0 <= i < claims.len() && #[trigger] claims[i] == (channel, id),
    decreases claims.len(),
{
    if claims.len() > 0 {
        let rest = claims.drop_last();
        lemma_holder_claimed(rest, channel);
        if claims.last().0 == channel {
            assert(claims[claims.len() - 1] == (channel, claims.last().1));
        } else if let Some(id) = holder(rest, channel) {
            let i = choose|i: int| 0 <= i < rest.len() && #[trigger] rest[i] == (channel, id);
            assert(claims[i] == (channel, id));
        }
    }
}

/// Everything that is found is true of the claims, and every claim past channel
/// 511 is found.
pub proof fn law_findings_are_true(claims: Seq<(usize, String)>)
    ensures
        forall|k: int|
            0 <= k < findings(claims).len() ==> is_true_finding(
                claims,
                #[trigger] findings(claims)[k],
            ),
        forall|i: int|
            0 <= i < claims.len() && (#[trigger] claims[i]).0 > 511 ==> findings(claims).contains(
                ChannelFinding::OutOfRange { id: claims[i].1, channel: claims[i].0 },
            ),
    decreases claims.len(),
{
    if claims.len() > 0 {
        let (rest, claim, end) = (claims.drop_last(), claims.last(), claims.len() - 1);
        law_findings_are_true(rest);
        lemma_holder_claimed(rest, claim.0);
        let (older, newer) = (findings(rest), findings_at(rest, claim));
        let all = findings(claims);
        assert(all == older + newer);
        assert(claims[end] == claim);
        assert forall|k: int| 0 <= k < all.len() implies is_true_finding(
            claims,
            #[trigger] all[k],
        ) by {
            if k < older.len() {
                assert(is_true_finding(rest, older[k]));
                match older[k] {
                    ChannelFinding::OutOfRange { id, channel } => {
                        let i = choose|i: int|
                            0 <= i < rest.len() && rest[i] == (channel, id);
                        assert(claims[i] == (channel, id));
                    },
                    ChannelFinding::Collision { channel, other, id } => {
                        let (i, j) = choose|i: int, j: int|
                            0 <= i < j < rest.len() && #[trigger] rest[i] == (channel, other)
                                && #[trigger] rest[j] == (channel, id);
                        assert(claims[i] == (channel, other) && claims[j] == (channel, id));
                    },
                }
            } else {
                let finding = newer[k - older.len()];
                assert(all[k] == finding);
                match finding {
                    ChannelFinding::OutOfRange { id, channel } => {
                        assert(claims[end] == (channel, id));
                    },
                    ChannelFinding::Collision { channel, other, id } => {
                        let i = choose|i: int|
                            0 <= i < rest.len() && #[trigger] rest[i] == (channel, other);
                        assert(claims[i] == (channel, other) && claims[end] == (channel, id));
                    },
                }
            }
        }
        assert forall|i: int| 0 <= i < claims.len() && (#[trigger] claims[i]).0
            > 511 implies all.contains(
            ChannelFinding::OutOfRange { id: claims[i].1, channel: claims[i].0 },
        ) by {
            let finding = ChannelFinding::OutOfRange { id: claims[i].1, channel: claims[i].0 };
            if i < end {
                assert(rest[i] == claims[i]);
                assert(older.contains(finding));
                let k = choose|k: int| 0 <= k < older.len() && older[k] == finding;
                assert(all[k] == finding);
            } else {
                assert(newer[0] == finding);
                assert(all[older.len() as int] == finding);
            }
        }
    }
}

/// Two outputs that take one channel collide, whatever stands between them.
pub proof fn law_outputs_collide_where_they_meet(
    outputs: Seq<DmxOutputDefinition>,
    i: int,
    j: int,
    channel: usize,
)
    requires
        countable(outputs),
        0 <= i < j < outputs.len(),
        takes(outputs[i], channel as int),
        takes(outputs[j], channel as int),
    ensures
        exists|k: int| 0 <= k < findings(claims(outputs)).len() && #[trigger] findings(
            claims(outputs),
        )[k] is Collision,
{
    let all = claims(outputs);
    lemma_claim_place(outputs, i, channel);
    lemma_claim_place(outputs, j, channel);
    let a = claims(outputs.take(i)).len() + (channel - outputs[i].channel);
    let b = claims(outputs.take(j)).len() + (channel - outputs[j].channel);
    lemma_claims_grow(outputs, i, j);
    assert(shares_channel(all, a, b));
    law_collisions_are_shared_channels(all);
}

/// The claims of an output come after those of the outputs before it.
proof fn lemma_claim_place(outputs: Seq<DmxOutputDefinition>, i: int, channel: usize)
    requires
        countable(outputs),
        0 <= i < outputs.len(),
        takes(outputs[i], channel as int),
    ensures
        ({
            let k = claims(outputs.take(i)).len() + (channel - outputs[i].channel);
            k < claims(outputs).len() && claims(outputs)[k].0 == channel
        }),
    decreases outputs.len(),
{
    let (rest, end) = (outputs.drop_last(), outputs.len() - 1);
    let all = claims(outputs);
    assert(all == claims(rest) + claims_of(outputs.last()));
    if i < end {
        assert(countable(rest)) by {
            assert forall|n: int| 0 <= n < rest.len() implies (#[trigger] rest[n]).channel + span(
                rest[n],
            ) <= usize::MAX + 1 by {
                assert(rest[n] == outputs[n]);
            }
        }
        assert(rest.take(i) =~= outputs.take(i));
        lemma_claim_place(rest, i, channel);
        let k = claims(outputs.take(i)).len() + (channel - outputs[i].channel);
        assert(all[k] == claims(rest)[k]);
    } else {
        assert(outputs.take(i) =~= rest);
        assert(outputs[i].channel + span(outputs[i]) <= usize::MAX + 1);
        let offset = channel - outputs[i].channel;
        assert(claims_of(outputs.last())[offset].0 == channel);
        assert(all[claims(rest).len() + offset] == claims_of(outputs.last())[offset]);
    }
}

/// Later outputs claim after earlier ones.
proof fn lemma_claims_grow(outputs: Seq<DmxOutputDefinition>, i: int, j: int)
    requires
        0 <= i < j <= outputs.len(),
    ensures
        claims(outputs.take(i)).len() + span(outputs[i]) <= claims(outputs.take(j)).len(),
    decreases j,
{
    let (shorter, longer) = (outputs.take(j - 1), outputs.take(j));
    assert(longer.drop_last() =~= shorter);
    assert(longer.last() == outputs[j - 1]);
    if i < j - 1 {
        lemma_claims_grow(outputs, i, j - 1);
    }
}

/// A target cannot be sent to exactly where it is an Art-Net one whose address is
/// neither a literal nor something that resolves.
pub proof fn law_only_invalid_artnet_addresses_are_refused(target: TargetConfig, form: AddressForm)
    ensures
        target is Hue ==> !is_unreachable(target, form),
        target is ArtNet ==> (is_unreachable(target, form) <==> form != AddressForm::Literal && form
            != AddressForm::Hostname),
{
}

/// A configuration passes exactly where no two behaviors have one ID, every note is
/// mapped to the ID of a behavior, there is a target, the address of every Art-Net
/// target is a literal or resolves, and every output ends at channel 511 at the
/// latest.
pub proof fn law_sound_configurations_pass(config: PulsePlexConfig, forms: Seq<AddressForm>)
    requires
        config.behavior@.len() <= usize::MAX,
        forms.len() == config.targets@.len(),
        countable(config.output.dmx@),
    ensures
        passes(config, forms) <==> {
            &&& forall|i: int, j: int|
                0 <= i < j < config.behavior@.len() ==> (#[trigger] config.behavior@[i]).id@ != (
                #[trigger] config.behavior@[j]).id@
            &&& forall|note: u8| #[trigger]
                config.midi.mappings@.contains_key(note) ==> is_defined(
                    config.behavior@,
                    config.midi.mappings@[note]@,
                )
            &&& config.targets@.len() > 0
            &&& forall|i: int|
                0 <= i < config.targets@.len() && #[trigger] config.targets@[i] is ArtNet
                    ==> forms[i] != AddressForm::Invalid
            &&& forall|i: int|
                0 <= i < config.output.dmx@.len() ==> {
                    let output = #[trigger] config.output.dmx@[i];
                    output.channel <= 511 && (output.color is Some ==> output.channel <= 509)
                }
        },
{
    law_linked_is_distinct_and_defined(config);
    law_outputs_pass_up_to_channel_511(config.output.dmx@);
    let targets = config.targets@;
    assert(all_reachable(targets, forms) <==> forall|i: int|
        0 <= i < targets.len() && #[trigger] targets[i] is ArtNet ==> forms[i]
            != AddressForm::Invalid) by {
        if all_reachable(targets, forms) {
            assert forall|i: int| 0 <= i < targets.len() && #[trigger] targets[i]
                is ArtNet implies forms[i] != AddressForm::Invalid by {
                assert(!is_unreachable(targets[i], forms[i]));
            }
        }
    }
}

/// What is said of a Hue target tells its bridge's address and its area, and what is
/// said of an Art-Net target whose address has to be resolved tells that address.
pub proof fn law_notices_tell_the_target(target: TargetConfig, form: AddressForm)
    ensures
        target matches TargetConfig::Hue(hue) ==> contains_text(
            target_notice(target, form),
            "bridge_ip="@ + hue.bridge_ip@,
        ) && contains_text(target_notice(target, form), "area_id="@ + hue.area_id@),
        form == AddressForm::Hostname ==> (target matches TargetConfig::ArtNet(artnet)
            ==> contains_text(target_notice(target, form), "'"@ + artnet.target_ip@ + "'"@)),
{
    let (notice, empty) = (target_notice(target, form), Seq::<char>::empty());
    match target {
        TargetConfig::Hue(hue) => {
            reveal_strlit("Network (Hue): bridge_ip=");
            reveal_strlit("Network (Hue): ");
            reveal_strlit("bridge_ip=");
            reveal_strlit(", area_id=");
            reveal_strlit(", ");
            reveal_strlit("area_id=");
            assert("Network (Hue): bridge_ip="@ =~= "Network (Hue): "@ + "bridge_ip="@);
            assert(", area_id="@ =~= ", "@ + "area_id="@);
            let (ip, area) = ("bridge_ip="@ + hue.bridge_ip@, "area_id="@ + hue.area_id@);
            assert(notice =~= "Network (Hue): "@ + ip + (", "@ + area));
            law_what_stands_in_a_text_is_found("Network (Hue): "@, ip, ", "@ + area);
            let before = "Network (Hue): "@ + ip + ", "@;
            assert(notice =~= before + area + empty);
            law_what_stands_in_a_text_is_found(before, area, empty);
        },
        TargetConfig::ArtNet(artnet) => if form == AddressForm::Hostname {
            reveal_strlit("Network: '");
            reveal_strlit("Network: ");
            reveal_strlit("'");
            reveal_strlit("' is a valid hostname/shorthand, but not a literal IP");
            reveal_strlit(" is a valid hostname/shorthand, but not a literal IP");
            assert("Network: '"@ =~= "Network: "@ + "'"@);
            let rest = " is a valid hostname/shorthand, but not a literal IP"@;
            assert("' is a valid hostname/shorthand, but not a literal IP"@ =~= "'"@ + rest);
            let told = "'"@ + artnet.target_ip@ + "'"@;
            assert(notice =~= "Network: "@ + told + rest);
            law_what_stands_in_a_text_is_found("Network: "@, told, rest);
        },
    }
}

} // verus!
