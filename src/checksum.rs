//! The checksum string of a snapshot, its CRC-32, and the comparison with
//! the checksum that the feed published.

use crate::book::{BookSide, FeedConfig, Field, Level3Data, Order, ValidationError, ValidationResult};
use crate::decimal::{canonical_ok, canonicalize, scaled, value_le};
use crate::levels::{prices, select_levels, select_spec, selected_count};
use crate::text::{int_text, push_int};
use vstd::prelude::*;

verus! {

/// The CRC-32 (IEEE 802.3) of the UTF-8 bytes of a text.
pub uninterp spec fn crc32_of(s: Seq<char>) -> u32;

/// Relies on `crc32fast::hash`: the standard CRC-32 of the bytes given, which
/// depends on those bytes alone.
#[verifier::external_body]
fn crc32(s: &str) -> (r: u32)
    ensures
        r == crc32_of(s@),
{
    crc32fast::hash(s.as_bytes())
}

/// Entry `i` carries decimals in range, and its price keeps the side's
/// order with the entry before it: asks ascend, bids descend.
pub open spec fn well_formed_at(side: Seq<Order>, i: int, ascending: bool) -> bool {
    &&& side[i].limit_price.wf()
    &&& side[i].order_qty.wf()
    &&& i > 0 ==> if ascending {
        value_le(side[i - 1].limit_price, side[i].limit_price)
    } else {
        value_le(side[i].limit_price, side[i - 1].limit_price)
    }
}

pub open spec fn side_well_formed(side: Seq<Order>, ascending: bool) -> bool {
    forall|i: int| 0 <= i < side.len() ==> well_formed_at(side, i, ascending)
}

/// Both the price and the quantity of `o` have their canonical integers.
pub open spec fn entry_ok(o: Order, cfg: FeedConfig) -> bool {
    &&& canonical_ok(o.limit_price, cfg.price_shift as nat, cfg.tolerance_digits as nat)
    &&& canonical_ok(o.order_qty, cfg.qty_shift as nat, cfg.tolerance_digits as nat)
}

/// The field of `o` that is reported when `o` has no canonical form.
pub open spec fn failing_field(o: Order, cfg: FeedConfig) -> Field {
    if canonical_ok(o.limit_price, cfg.price_shift as nat, cfg.tolerance_digits as nat) {
        Field::Quantity
    } else {
        Field::Price
    }
}

/// The canonical price integer followed by the canonical quantity integer.
pub open spec fn entry_text(o: Order, cfg: FeedConfig) -> Seq<char> {
    int_text(scaled(o.limit_price, cfg.price_shift as nat)) + int_text(
        scaled(o.order_qty, cfg.qty_shift as nat),
    )
}

pub open spec fn excluded(ex: Seq<u32>, level: nat) -> bool {
    exists|k: int| 0 <= k < ex.len() && ex[k] as nat == level
}

/// Every entry within the first `cfg.levels_per_side` levels has its canonical form.
pub open spec fn side_precise(side: Seq<Order>, cfg: FeedConfig) -> bool {
    forall|i: int|
        0 <= i < selected_count(prices(side), cfg.levels_per_side as nat) ==> entry_ok(
            #[trigger] side[i],
            cfg,
        )
}

/// What each selected entry adds to the checksum string, in the order
/// received: nothing where its level is excluded.
pub open spec fn side_pieces(side: Seq<Order>, ex: Seq<u32>, cfg: FeedConfig) -> Seq<Seq<char>> {
    let lv = select_spec(prices(side), cfg.levels_per_side as nat);
    Seq::new(
        lv.len(),
        |i: int|
            if excluded(ex, lv[i]) {
                Seq::<char>::empty()
            } else {
                entry_text(side[i], cfg)
            },
    )
}

pub open spec fn concat(pieces: Seq<Seq<char>>) -> Seq<char>
    decreases pieces.len(),
{
    if pieces.len() == 0 {
        Seq::empty()
    } else {
        concat(pieces.drop_last()) + pieces.last()
    }
}

pub open spec fn side_text(side: Seq<Order>, ex: Seq<u32>, cfg: FeedConfig) -> Seq<char> {
    concat(side_pieces(side, ex, cfg))
}

/// The checksum string: the asks' contribution, then the bids'.
pub open spec fn book_text(snap: Level3Data, cfg: FeedConfig) -> Seq<char> {
    side_text(snap.asks@, cfg.ask_excluded_levels@, cfg) + side_text(
        snap.bids@,
        cfg.bid_excluded_levels@,
        cfg,
    )
}

/// `index` is the first selected entry of `side` without a canonical form.
pub open spec fn first_imprecise(side: Seq<Order>, cfg: FeedConfig, index: int, field: Field) -> bool {
    &&& 0 <= index < selected_count(prices(side), cfg.levels_per_side as nat)
    &&& !entry_ok(side[index], cfg)
    &&& forall|j: int| 0 <= j < index ==> entry_ok(#[trigger] side[j], cfg)
    &&& field == failing_field(side[index], cfg)
}

/// `index` is the first entry of `side` that is not well formed.
pub open spec fn first_malformed(side: Seq<Order>, ascending: bool, index: int) -> bool {
    &&& 0 <= index < side.len()
    &&& !well_formed_at(side, index, ascending)
    &&& forall|j: int| 0 <= j < index ==> well_formed_at(side, j, ascending)
}

/// The snapshot can be checked: both sides well formed, every selected entry
/// with its canonical form.
pub open spec fn book_ok(snap: Level3Data, cfg: FeedConfig) -> bool {
    &&& side_well_formed(snap.asks@, true)
    &&& side_well_formed(snap.bids@, false)
    &&& side_precise(snap.asks@, cfg)
    &&& side_precise(snap.bids@, cfg)
}

/// `e` is the first fault of the snapshot: asks before bids, well-formedness
/// of a whole side before precision.
pub open spec fn first_error(snap: Level3Data, cfg: FeedConfig, e: ValidationError) -> bool {
    match e {
        ValidationError::MalformedInput { side: BookSide::Ask, index } => first_malformed(
            snap.asks@,
            true,
            index as int,
        ),
        ValidationError::MalformedInput { side: BookSide::Bid, index } => side_well_formed(
            snap.asks@,
            true,
        ) && first_malformed(snap.bids@, false, index as int),
        ValidationError::PrecisionError { side: BookSide::Ask, index, field } => {
            &&& side_well_formed(snap.asks@, true)
            &&& side_well_formed(snap.bids@, false)
            &&& first_imprecise(snap.asks@, cfg, index as int, field)
        },
        ValidationError::PrecisionError { side: BookSide::Bid, index, field } => {
            &&& side_well_formed(snap.asks@, true)
            &&& side_well_formed(snap.bids@, false)
            &&& side_precise(snap.asks@, cfg)
            &&& first_imprecise(snap.bids@, cfg, index as int, field)
        },
    }
}

/// The first entry of `side` that is not well formed, if any.
fn find_malformed(side: &Vec<Order>, ascending: bool) -> (r: Option<usize>)
    ensures
        match r {
            Some(i) => first_malformed(side@, ascending, i as int),
            None => side_well_formed(side@, ascending),
        },
{
    let mut i: usize = 0;
    while i < side.len()
        invariant
            i <= side.len(),
            forall|j: int| 0 <= j < i ==> well_formed_at(side@, j, ascending),
        decreases side.len() - i,
    {
        let o = &side[i];
        if !o.limit_price.wf_exec() || !o.order_qty.wf_exec() {
            return Some(i);
        }
        if i > 0 {
            let prev = &side[i - 1].limit_price;
            assert(well_formed_at(side@, i - 1, ascending));
            let ordered = if ascending {
                prev.value_le(&o.limit_price)
            } else {
                o.limit_price.value_le(prev)
            };
            if !ordered {
                return Some(i);
            }
        }
        i = i + 1;
    }
    None
}

fn contains_level(ex: &Vec<u32>, level: u32) -> (r: bool)
    ensures
        r == excluded(ex@, level as nat),
{
    let mut k: usize = 0;
    while k < ex.len()
        invariant
            k <= ex.len(),
            forall|j: int| 0 <= j < k ==> ex[j] != level,
        decreases ex.len() - k,
    {
        if ex[k] == level {
            return true;
        }
        k = k + 1;
    }
    false
}

/// Appends the contribution of `side` to `s`; on failure, the index of the
/// first selected entry without a canonical form and the field at fault.
pub fn append_side(s: &mut String, side: &Vec<Order>, ex: &Vec<u32>, cfg: &FeedConfig) -> (r:
    Result<(), (usize, Field)>)
    requires
        forall|i: int| 0 <= i < side.len() ==> (#[trigger] side[i]).limit_price.wf() && side[i].order_qty.wf(),
    ensures
        match r {
            Ok(()) => side_precise(side@, *cfg) && final(s)@ == old(s)@ + side_text(
                side@,
                ex@,
                *cfg,
            ),
            Err((index, field)) => first_imprecise(side@, *cfg, index as int, field),
        },
{
    let levels = select_levels(side, cfg.levels_per_side);
    let ghost pieces = side_pieces(side@, ex@, *cfg);
    let ghost start = s@;
    proof {
        crate::levels::lemma_selected_count(prices(side@), cfg.levels_per_side as nat);
    }
    let mut i: usize = 0;
    while i < levels.len()
        invariant
            forall|i: int| 0 <= i < side.len() ==> (#[trigger] side[i]).limit_price.wf() && side[i].order_qty.wf(),
            levels@.len() == selected_count(prices(side@), cfg.levels_per_side as nat),
            forall|i: int| 0 <= i < levels.len() ==> levels[i] as nat == select_spec(prices(side@), cfg.levels_per_side as nat)[i],
            pieces == side_pieces(side@, ex@, *cfg),
            pieces.len() == levels.len(),
            i <= levels.len(),
            levels.len() <= side.len(),
            forall|j: int| 0 <= j < i ==> entry_ok(#[trigger] side[j], *cfg),
            s@ == start + concat(pieces.take(i as int)),
        decreases levels.len() - i,
    {
        let o = &side[i];
        let price = match canonicalize(o.limit_price, cfg.price_shift, cfg.tolerance_digits) {
            Some(v) => v,
            None => {
                return Err((i, Field::Price));
            },
        };
        let qty = match canonicalize(o.order_qty, cfg.qty_shift, cfg.tolerance_digits) {
            Some(v) => v,
            None => {
                return Err((i, Field::Quantity));
            },
        };
        if !contains_level(ex, levels[i]) {
            push_int(s, price);
            push_int(s, qty);
        }
        assert(pieces.take(i + 1).drop_last() =~= pieces.take(i as int));
        assert(s@ =~= start + concat(pieces.take(i + 1)));
        i = i + 1;
    }
    assert(pieces.take(i as int) =~= pieces);
    Ok(())
}

/// The checksum string of `snap`, or the first fault that keeps it from
/// being built.
pub fn checksum_string(snap: &Level3Data, cfg: &FeedConfig) -> (r: Result<String, ValidationError>)
    ensures
        match r {
            Ok(s) => book_ok(*snap, *cfg) && s@ == book_text(*snap, *cfg),
            Err(e) => !book_ok(*snap, *cfg) && first_error(*snap, *cfg, e),
        },
{
    if let Some(index) = find_malformed(&snap.asks, true) {
        return Err(ValidationError::MalformedInput { side: BookSide::Ask, index });
    }
    if let Some(index) = find_malformed(&snap.bids, false) {
        return Err(ValidationError::MalformedInput { side: BookSide::Bid, index });
    }
    assert forall|i: int| 0 <= i < snap.asks.len() implies (#[trigger] snap.asks[i]).limit_price.wf()
        && snap.asks[i].order_qty.wf() by {
        assert(well_formed_at(snap.asks@, i, true));
    }
    assert forall|i: int| 0 <= i < snap.bids.len() implies (#[trigger] snap.bids[i]).limit_price.wf()
        && snap.bids[i].order_qty.wf() by {
        assert(well_formed_at(snap.bids@, i, false));
    }
    let mut s = String::new();
    match append_side(&mut s, &snap.asks, &cfg.ask_excluded_levels, cfg) {
        Ok(()) => {},
        Err((index, field)) => {
            return Err(ValidationError::PrecisionError { side: BookSide::Ask, index, field });
        },
    }
    match append_side(&mut s, &snap.bids, &cfg.bid_excluded_levels, cfg) {
        Ok(()) => {},
        Err((index, field)) => {
            return Err(ValidationError::PrecisionError { side: BookSide::Bid, index, field });
        },
    }
    assert(s@ =~= book_text(*snap, *cfg));
    Ok(s)
}

/// Compares a computed checksum with the one the feed published.
pub fn compare_checksum(computed: u32, expected: u32, checksum_string: String) -> (r:
    ValidationResult)
    ensures
        r == (if computed == expected {
            ValidationResult::Valid { computed, checksum_string }
        } else {
            ValidationResult::Mismatch { computed, expected, checksum_string }
        }),
{
    if computed == expected {
        ValidationResult::Valid { computed, checksum_string }
    } else {
        ValidationResult::Mismatch { computed, expected, checksum_string }
    }
}

/// Checks `snap` against the checksum it carries.
pub fn validate(snap: &Level3Data, cfg: &FeedConfig) -> (r: ValidationResult)
    ensures
        book_ok(*snap, *cfg) ==> ({
            let text = book_text(*snap, *cfg);
            let computed = crc32_of(text);
            match r {
                ValidationResult::Valid { computed: c, checksum_string } => c == computed
                    && computed == snap.checksum && checksum_string@ == text,
                ValidationResult::Mismatch { computed: c, expected, checksum_string } => c
                    == computed && computed != snap.checksum && expected == snap.checksum
                    && checksum_string@ == text,
                ValidationResult::Failed(_) => false,
            }
        }),
        !book_ok(*snap, *cfg) ==> (r matches ValidationResult::Failed(e) && first_error(
            *snap,
            *cfg,
            e,
        )),
{
    match checksum_string(snap, cfg) {
        Ok(s) => {
            let computed = crc32(s.as_str());
            compare_checksum(computed, snap.checksum, s)
        },
        Err(e) => ValidationResult::Failed(e),
    }
}

/// An empty side is well formed, asks for no canonical form, and adds
/// nothing to the checksum string, which is then the other side's
/// contribution alone.
pub proof fn lemma_empty_side(snap: Level3Data, cfg: FeedConfig)
    ensures
        snap.asks@.len() == 0 ==> side_well_formed(snap.asks@, true) && side_precise(
            snap.asks@,
            cfg,
        ) && book_text(snap, cfg) == side_text(snap.bids@, cfg.bid_excluded_levels@, cfg),
        snap.bids@.len() == 0 ==> side_well_formed(snap.bids@, false) && side_precise(
            snap.bids@,
            cfg,
        ) && book_text(snap, cfg) == side_text(snap.asks@, cfg.ask_excluded_levels@, cfg),
{
    let n = cfg.levels_per_side as nat;
    if snap.asks@.len() == 0 {
        crate::levels::lemma_selected_count(prices(snap.asks@), n);
        assert(side_pieces(snap.asks@, cfg.ask_excluded_levels@, cfg).len() == 0);
        assert(book_text(snap, cfg) =~= side_text(snap.bids@, cfg.bid_excluded_levels@, cfg));
    }
    if snap.bids@.len() == 0 {
        crate::levels::lemma_selected_count(prices(snap.bids@), n);
        assert(side_pieces(snap.bids@, cfg.bid_excluded_levels@, cfg).len() == 0);
        assert(book_text(snap, cfg) =~= side_text(snap.asks@, cfg.ask_excluded_levels@, cfg));
    }
}

/// Two configurations that differ only in the ask levels they exclude, the
/// first excluding none: the bids contribute the same text under both, and
/// each selected ask contributes nothing where its level is excluded and the
/// same text as without exclusions elsewhere, in the same place.
pub proof fn lemma_ask_exclusion(snap: Level3Data, plain: FeedConfig, quirk: FeedConfig)
    requires
        plain.ask_excluded_levels@.len() == 0,
        quirk.price_shift == plain.price_shift,
        quirk.qty_shift == plain.qty_shift,
        quirk.tolerance_digits == plain.tolerance_digits,
        quirk.levels_per_side == plain.levels_per_side,
        quirk.bid_excluded_levels@ == plain.bid_excluded_levels@,
    ensures
        ({
            let bid_text = side_text(snap.bids@, plain.bid_excluded_levels@, plain);
            &&& book_text(snap, plain) == side_text(snap.asks@, plain.ask_excluded_levels@, plain)
                + bid_text
            &&& book_text(snap, quirk) == side_text(snap.asks@, quirk.ask_excluded_levels@, quirk)
                + bid_text
        }),
        ({
            let with = side_pieces(snap.asks@, quirk.ask_excluded_levels@, quirk);
            let without = side_pieces(snap.asks@, plain.ask_excluded_levels@, plain);
            let lv = select_spec(prices(snap.asks@), plain.levels_per_side as nat);
            &&& with.len() == without.len()
            &&& forall|i: int|
                0 <= i < with.len() ==> #[trigger] with[i] == if excluded(
                    quirk.ask_excluded_levels@,
                    lv[i],
                ) {
                    Seq::<char>::empty()
                } else {
                    without[i]
                }
        }),
{
    assert(side_pieces(snap.bids@, quirk.bid_excluded_levels@, quirk) =~= side_pieces(
        snap.bids@,
        plain.bid_excluded_levels@,
        plain,
    ));
}

} // verus!
