use vstd::prelude::*;
use vstd::string::*;

use crate::types::{DevCard, PlayerId, Resource, TileId, RESOURCE_COUNT};

verus! {

/// The character of decimal digit `d`.
pub open spec fn digit_char(d: nat) -> char {
    (48 + d) as char
}

/// The decimal digits of `n`, most significant first.
pub open spec fn decimal(n: nat) -> Seq<char>
    decreases n,
{
    if n < 10 {
        seq![digit_char(n)]
    } else {
        decimal(n / 10) + seq![digit_char(n % 10)]
    }
}

fn digit_str(d: u64) -> (s: &'static str)
    requires
        d < 10,
    ensures
        s@ == seq![digit_char(d as nat)],
{
    proof {
        reveal_strlit("0");
        reveal_strlit("1");
        reveal_strlit("2");
        reveal_strlit("3");
        reveal_strlit("4");
        reveal_strlit("5");
        reveal_strlit("6");
        reveal_strlit("7");
        reveal_strlit("8");
        reveal_strlit("9");
    }
    match d {
        0 => "0",
        1 => "1",
        2 => "2",
        3 => "3",
        4 => "4",
        5 => "5",
        6 => "6",
        7 => "7",
        8 => "8",
        _ => "9",
    }
}

/// Appends the decimal digits of `n`.
pub(crate) fn push_decimal(out: &mut String, n: u64)
    ensures
        final(out)@ == old(out)@ + decimal(n as nat),
    decreases n,
{
    if n >= 10 {
        push_decimal(out, n / 10);
    }
    out.append(digit_str(n % 10));
    proof {
        if n >= 10 {
            assert(final(out)@ =~= old(out)@ + decimal(n as nat));
        }
    }
}

/// The decimal digits of `n` as a string.
pub(crate) fn decimal_string(n: u64) -> (s: String)
    ensures
        s@ == decimal(n as nat),
{
    let mut out = String::new();
    push_decimal(&mut out, n);
    proof {
        assert(out@ =~= decimal(n as nat));
    }
    out
}

/// A log entry: the action kind, then a colon and the payload when there is one.
pub open spec fn log_line(kind: Seq<char>, payload: Option<Seq<char>>) -> Seq<char> {
    match payload {
        Some(p) => kind + seq![':'] + p,
        None => kind,
    }
}

pub(crate) fn log_entry(kind: &str, payload: Option<String>) -> (entry: String)
    ensures
        entry@ == log_line(kind@, match payload {
            Some(p) => Some(p@),
            None => None,
        }),
{
    let mut entry = String::from_str(kind);
    if let Some(p) = payload {
        proof {
            reveal_strlit(":");
        }
        entry.append(":");
        entry.append(p.as_str());
    }
    entry
}

/// The name the log gives a resource.
pub open spec fn resource_name(resource: Resource) -> Seq<char> {
    match resource {
        Resource::Brick => seq!['B', 'R', 'I', 'C', 'K'],
        Resource::Lumber => seq!['W', 'O', 'O', 'D'],
        Resource::Ore => seq!['O', 'R', 'E'],
        Resource::Grain => seq!['W', 'H', 'E', 'A', 'T'],
        Resource::Wool => seq!['S', 'H', 'E', 'E', 'P'],
    }
}

pub(crate) fn format_resource(resource: Resource) -> (s: String)
    ensures
        s@ == resource_name(resource),
{
    proof {
        reveal_strlit("BRICK");
        reveal_strlit("WOOD");
        reveal_strlit("ORE");
        reveal_strlit("WHEAT");
        reveal_strlit("SHEEP");
    }
    let name = match resource {
        Resource::Brick => "BRICK",
        Resource::Lumber => "WOOD",
        Resource::Ore => "ORE",
        Resource::Grain => "WHEAT",
        Resource::Wool => "SHEEP",
    };
    let s = String::from_str(name);
    proof {
        assert(s@ =~= resource_name(resource));
    }
    s
}

/// The name the log gives a development card.
pub open spec fn dev_card_name(card: DevCard) -> Seq<char> {
    match card {
        DevCard::Knight => seq!['K', 'N', 'I', 'G', 'H', 'T'],
        DevCard::YearOfPlenty => seq!['Y', 'E', 'A', 'R', '_', 'O', 'F', '_', 'P', 'L', 'E', 'N', 'T', 'Y'],
        DevCard::Monopoly => seq!['M', 'O', 'N', 'O', 'P', 'O', 'L', 'Y'],
        DevCard::RoadBuilding => seq!['R', 'O', 'A', 'D', '_', 'B', 'U', 'I', 'L', 'D', 'I', 'N', 'G'],
        DevCard::VictoryPoint => seq!['V', 'I', 'C', 'T', 'O', 'R', 'Y', '_', 'P', 'O', 'I', 'N', 'T'],
    }
}

pub(crate) fn format_dev_card(card: DevCard) -> (s: String)
    ensures
        s@ == dev_card_name(card),
{
    proof {
        reveal_strlit("KNIGHT");
        reveal_strlit("YEAR_OF_PLENTY");
        reveal_strlit("MONOPOLY");
        reveal_strlit("ROAD_BUILDING");
        reveal_strlit("VICTORY_POINT");
    }
    let name = match card {
        DevCard::Knight => "KNIGHT",
        DevCard::YearOfPlenty => "YEAR_OF_PLENTY",
        DevCard::Monopoly => "MONOPOLY",
        DevCard::RoadBuilding => "ROAD_BUILDING",
        DevCard::VictoryPoint => "VICTORY_POINT",
    };
    let s = String::from_str(name);
    proof {
        assert(s@ =~= dev_card_name(card));
    }
    s
}

/// Counts as the log writes them: decimal numbers joined by commas.
pub open spec fn counts_text(counts: Seq<u8>, n: int) -> Seq<char>
    decreases n,
{
    if n <= 0 {
        Seq::empty()
    } else if n == 1 {
        decimal(counts[0] as nat)
    } else {
        counts_text(counts, n - 1) + seq![','] + decimal(counts[n - 1] as nat)
    }
}

pub(crate) fn format_counts(counts: &[u8; RESOURCE_COUNT]) -> (s: String)
    ensures
        s@ == counts_text(counts@, RESOURCE_COUNT as int),
{
    let mut out = String::new();
    let mut idx: usize = 0;
    while idx < RESOURCE_COUNT
        invariant
            idx <= RESOURCE_COUNT,
            out@ == counts_text(counts@, idx as int),
        decreases RESOURCE_COUNT - idx,
    {
        if idx > 0 {
            proof {
                reveal_strlit(",");
            }
            out.append(",");
        }
        push_decimal(&mut out, counts[idx] as u64);
        proof {
            if idx == 0 {
                assert(out@ =~= counts_text(counts@, 1));
            } else {
                assert(out@ =~= counts_text(counts@, idx + 1));
            }
        }
        idx = idx + 1;
    }
    out
}

/// The robber payload: the tile, the victim or a dash, and the resource or a dash.
pub open spec fn robber_text(tile: TileId, victim: Option<PlayerId>, resource: Option<Resource>) -> Seq<char> {
    seq!['t', 'i', 'l', 'e', '='] + decimal(tile as nat) + seq![',', 'v', 'i', 'c', 't', 'i', 'm', '='] + match victim {
        Some(v) => decimal(v as nat),
        None => seq!['-'],
    } + seq![',', 'r', 'e', 's', '='] + match resource {
        Some(r) => resource_name(r),
        None => seq!['-'],
    }
}

pub(crate) fn format_robber_payload(tile: TileId, victim: Option<PlayerId>, resource: Option<Resource>) -> (s: String)
    ensures
        s@ == robber_text(tile, victim, resource),
{
    proof {
        reveal_strlit("tile=");
        reveal_strlit(",victim=");
        reveal_strlit(",res=");
        reveal_strlit("-");
    }
    let mut out = String::from_str("tile=");
    push_decimal(&mut out, tile as u64);
    out.append(",victim=");
    match victim {
        Some(v) => push_decimal(&mut out, v as u64),
        None => out.append("-"),
    }
    out.append(",res=");
    match resource {
        Some(r) => {
            let name = format_resource(r);
            out.append(name.as_str());
        },
        None => out.append("-"),
    }
    proof {
        assert(out@ =~= robber_text(tile, victim, resource));
    }
    out
}

/// The year-of-plenty payload: the first resource, a comma, and the second or a dash.
pub open spec fn plenty_text(first: Resource, second: Option<Resource>) -> Seq<char> {
    resource_name(first) + seq![','] + match second {
        Some(r) => resource_name(r),
        None => seq!['-'],
    }
}

pub(crate) fn format_year_of_plenty_payload(first: Resource, second: Option<Resource>) -> (s: String)
    ensures
        s@ == plenty_text(first, second),
{
    proof {
        reveal_strlit(",");
        reveal_strlit("-");
    }
    let mut out = format_resource(first);
    out.append(",");
    match second {
        Some(r) => {
            let name = format_resource(r);
            out.append(name.as_str());
        },
        None => out.append("-"),
    }
    proof {
        assert(out@ =~= plenty_text(first, second));
    }
    out
}

/// The maritime payload: `offer=<resource>:<rate>;ask=<resource>`.
pub open spec fn maritime_text(offer: Resource, rate: u8, ask: Resource) -> Seq<char> {
    seq!['o', 'f', 'f', 'e', 'r', '='] + resource_name(offer) + seq![':'] + decimal(rate as nat) + seq![';', 'a', 's', 'k', '=']
        + resource_name(ask)
}

pub(crate) fn format_maritime_payload(offer: Resource, rate: u8, ask: Resource) -> (s: String)
    ensures
        s@ == maritime_text(offer, rate, ask),
{
    proof {
        reveal_strlit("offer=");
        reveal_strlit(":");
        reveal_strlit(";ask=");
    }
    let mut out = String::from_str("offer=");
    let offer_name = format_resource(offer);
    out.append(offer_name.as_str());
    out.append(":");
    push_decimal(&mut out, rate as u64);
    out.append(";ask=");
    let ask_name = format_resource(ask);
    out.append(ask_name.as_str());
    proof {
        assert(out@ =~= maritime_text(offer, rate, ask));
    }
    out
}

/// The trade payload: `offer=<counts>|ask=<counts>`.
pub open spec fn trade_text(trade: [u8; 10]) -> Seq<char> {
    seq!['o', 'f', 'f', 'e', 'r', '='] + counts_text(trade@.subrange(0, 5), 5) + seq!['|', 'a', 's', 'k', '='] + counts_text(
        trade@.subrange(5, 10),
        5,
    )
}

pub(crate) fn format_trade_payload(trade: [u8; 10]) -> (s: String)
    ensures
        s@ == trade_text(trade),
{
    proof {
        reveal_strlit("offer=");
        reveal_strlit("|ask=");
    }
    let offer = [trade[0], trade[1], trade[2], trade[3], trade[4]];
    let ask = [trade[5], trade[6], trade[7], trade[8], trade[9]];
    proof {
        assert(offer@ =~= trade@.subrange(0, 5));
        assert(ask@ =~= trade@.subrange(5, 10));
    }
    let mut out = String::from_str("offer=");
    let offer_text = format_counts(&offer);
    out.append(offer_text.as_str());
    out.append("|ask=");
    let ask_text = format_counts(&ask);
    out.append(ask_text.as_str());
    proof {
        assert(out@ =~= trade_text(trade));
    }
    out
}

/// The confirmed-trade payload: the trade, then `|with=` and the partner.
pub open spec fn confirm_text(trade: [u8; 10], partner: PlayerId) -> Seq<char> {
    trade_text(trade) + seq!['|', 'w', 'i', 't', 'h', '='] + decimal(partner as nat)
}

pub(crate) fn format_confirm_trade_payload(trade: [u8; 10], partner: PlayerId) -> (s: String)
    ensures
        s@ == confirm_text(trade, partner),
{
    proof {
        reveal_strlit("|with=");
    }
    let mut out = format_trade_payload(trade);
    out.append("|with=");
    push_decimal(&mut out, partner as u64);
    proof {
        assert(out@ =~= confirm_text(trade, partner));
    }
    out
}

} // verus!
