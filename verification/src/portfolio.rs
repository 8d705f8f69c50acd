//! The portfolio data model, its load-time validation, and the
//! allocation engine.

use crate::dec::{dec_div, dec_mul, dec_mul_up, whole, Dec, SCALE};
use vstd::prelude::*;

verus! {

/// Name of the base-currency asset: the deployable cash reserve and the
/// sink for rounding residue.
pub open spec fn currency_name() -> Seq<char> {
    "USD"@
}

/// Direction of a reported action.
#[derive(Clone, Copy, Debug, PartialEq, Eq, Structural)]
pub enum BuySell {
    Buy,
    Sell,
}

/// One holding: a named asset with unit price, held quantity, target or
/// derived allocation percentage, and its derived value.
#[derive(Debug, Clone)]
pub struct Asset {
    pub name: String,
    pub price: Dec,
    pub count: Dec,
    pub alloc: Dec,
    pub value: Dec,
}

/// Mathematical model of an [`Asset`]: the name as a character sequence
/// and each amount as its unit count.
#[verifier::ext_equal]
pub ghost struct AssetView {
    pub name: Seq<char>,
    pub price: int,
    pub count: int,
    pub alloc: int,
    pub value: int,
}

impl View for Asset {
    type V = AssetView;

    open spec fn view(&self) -> AssetView {
        AssetView {
            name: self.name@,
            price: self.price@,
            count: self.count@,
            alloc: self.alloc@,
            value: self.value@,
        }
    }
}

/// An ordered collection of assets with the strategy flag and the
/// derived total value.
#[derive(Debug, Clone)]
pub struct Portfolio {
    pub assets: Vec<Asset>,
    pub donotsell: bool,
    pub value: Dec,
}

/// Mathematical model of a [`Portfolio`].
#[verifier::ext_equal]
pub ghost struct PortfolioView {
    pub assets: Seq<AssetView>,
    pub donotsell: bool,
    pub value: int,
}

impl View for Portfolio {
    type V = PortfolioView;

    open spec fn view(&self) -> PortfolioView {
        PortfolioView {
            assets: self.assets@.map_values(|a: Asset| a@),
            donotsell: self.donotsell,
            value: self.value@,
        }
    }
}

/// Sum of the allocation fields of the first `n` assets.
pub open spec fn alloc_sum(s: Seq<AssetView>, n: int) -> int
    decreases n,
{
    if n <= 0 {
        0
    } else {
        alloc_sum(s, n - 1) + s[n - 1].alloc
    }
}

/// Sum of the value fields of the first `n` assets.
pub open spec fn value_sum(s: Seq<AssetView>, n: int) -> int
    decreases n,
{
    if n <= 0 {
        0
    } else {
        value_sum(s, n - 1) + s[n - 1].value
    }
}

/// Whether some asset is the base currency.
pub open spec fn has_currency(s: Seq<AssetView>) -> bool {
    exists|i: int| 0 <= i < s.len() && s[i].name == currency_name()
}

/// One buy or sell instruction: a whole-unit amount of a named asset and
/// the money it moves.
#[derive(Debug, Clone, PartialEq, Eq)]
pub struct Action {
    pub buysell: BuySell,
    pub amount: u32,
    pub name: String,
    pub transaction_value: Dec,
}

/// Mathematical model of an [`Action`].
#[verifier::ext_equal]
pub ghost struct ActionView {
    pub buysell: BuySell,
    pub amount: int,
    pub name: Seq<char>,
    pub transaction_value: int,
}

impl View for Action {
    type V = ActionView;

    open spec fn view(&self) -> ActionView {
        ActionView {
            buysell: self.buysell,
            amount: self.amount as int,
            name: self.name@,
            transaction_value: self.transaction_value@,
        }
    }
}

/// Why a raw portfolio was rejected at load time.
#[derive(Debug, Clone, PartialEq, Eq, Structural)]
pub enum LoadError {
    /// The allocation percentages do not sum to exactly 100; carries the
    /// actual sum.
    InvalidAllocation(Dec),
    /// No asset is named after the base currency.
    MissingCurrency,
    /// A derived amount does not fit the fixed-precision representation.
    NumberTooLarge,
}

/// Why an engine computation failed.
#[derive(Debug, Clone, PartialEq, Eq, Structural)]
pub enum EngineError {
    /// The base-currency asset required by the strategy is absent.
    MissingCurrency,
    /// A whole-unit amount does not fit the reporting integer range.
    QuantityOverflow,
}

/// The views of a sequence of executable assets.
pub open spec fn views_of(assets: Seq<Asset>) -> Seq<AssetView> {
    assets.map_values(|a: Asset| a@)
}

/// An asset with its value derived from price and count.
pub open spec fn valued(a: AssetView) -> AssetView {
    AssetView {
        name: a.name,
        price: a.price,
        count: a.count,
        alloc: a.alloc,
        value: dec_mul(a.price, a.count),
    }
}

/// Every asset with its value derived from price and count.
pub open spec fn with_values(s: Seq<AssetView>) -> Seq<AssetView> {
    s.map_values(|a: AssetView| valued(a))
}

/// Every derived value and their running total fit the representation.
pub open spec fn loadable(s: Seq<AssetView>) -> bool {
    &&& forall|i: int| 0 <= i < s.len() ==> #[trigger] (s[i].price * s[i].count) <= u128::MAX
    &&& value_sum(with_values(s), s.len() as int) <= u128::MAX
}

/// Each asset's value field is derived from its price and count, and the
/// portfolio value is their sum: what `load_portfolio` establishes.
pub open spec fn consistent(p: PortfolioView) -> bool {
    &&& forall|i: int|
        0 <= i < p.assets.len() ==> p.assets[i].value == dec_mul(
            p.assets[i].price,
            p.assets[i].count,
        )
    &&& p.value == value_sum(p.assets, p.assets.len() as int)
}

/// The allocation percentages sum to exactly 100.
pub open spec fn valid_alloc(p: PortfolioView) -> bool {
    alloc_sum(p.assets, p.assets.len() as int) == 100 * (SCALE as int)
}

/// Prefix sums of allocations grow with the prefix when the summed
/// allocations are non-negative.
proof fn lemma_alloc_sum_mono(s: Seq<AssetView>, j: int, n: int)
    requires
        0 <= j <= n,
        forall|i: int| j <= i < n ==> s[i].alloc >= 0,
    ensures
        alloc_sum(s, j) <= alloc_sum(s, n),
    decreases n - j,
{
    if j < n {
        lemma_alloc_sum_mono(s, j, n - 1);
    }
}

/// Prefix sums of values grow with the prefix when the summed values are
/// non-negative.
proof fn lemma_value_sum_mono(s: Seq<AssetView>, j: int, n: int)
    requires
        0 <= j <= n,
        forall|i: int| j <= i < n ==> s[i].value >= 0,
    ensures
        value_sum(s, j) <= value_sum(s, n),
    decreases n - j,
{
    if j < n {
        lemma_value_sum_mono(s, j, n - 1);
    }
}

/// The product of two non-negative amounts, scaled down, is non-negative.
proof fn lemma_dec_mul_nonneg(a: int, b: int)
    requires
        a >= 0,
        b >= 0,
    ensures
        dec_mul(a, b) >= 0,
{
    assert(a * b >= 0) by (nonlinear_arith)
        requires
            a >= 0 && b >= 0,
    ;
    vstd::arithmetic::div_mod::lemma_div_pos_is_pos(a * b, SCALE as int);
}

/// The quotient of two amounts, scaled up, is non-negative.
proof fn lemma_dec_div_nonneg(a: int, b: int)
    requires
        a >= 0,
        b > 0,
    ensures
        dec_div(a, b) >= 0,
{
    assert(a * (SCALE as int) >= 0) by (nonlinear_arith)
        requires
            a >= 0,
    ;
    vstd::arithmetic::div_mod::lemma_div_pos_is_pos(a * (SCALE as int), b);
}

/// Deriving values changes no allocation, so the allocation sum is kept.
proof fn lemma_alloc_sum_with_values(s: Seq<AssetView>, n: int)
    requires
        0 <= n <= s.len(),
    ensures
        alloc_sum(with_values(s), n) == alloc_sum(s, n),
    decreases n,
{
    if n > 0 {
        lemma_alloc_sum_with_values(s, n - 1);
        assert(with_values(s)[n - 1] == valued(s[n - 1]));
    }
}

/// Bound on a portfolio total accepted by allocation recomputation:
/// scaling any value up to the total by `SCALE` stays representable.
pub const TOTAL_LIMIT: u128 = 300_000_000_000_000_000_000_000_000_000;

/// An asset with its allocation recomputed as the share of its value in
/// the portfolio total, as a percentage.
pub open spec fn recalc_asset(a: AssetView, total: int) -> AssetView {
    AssetView {
        name: a.name,
        price: a.price,
        count: a.count,
        alloc: dec_mul(dec_div(a.value, total), 100 * (SCALE as int)),
        value: a.value,
    }
}

/// Every asset with its allocation recomputed against `total`.
pub open spec fn recalc_assets(s: Seq<AssetView>, total: int) -> Seq<AssetView> {
    s.map_values(|a: AssetView| recalc_asset(a, total))
}

/// The portfolio with every displayed allocation re-derived from the
/// current values.
pub open spec fn recalc_spec(p: PortfolioView) -> PortfolioView {
    PortfolioView { assets: recalc_assets(p.assets, p.value), donotsell: p.donotsell, value: p.value }
}

/// When allocations can be recomputed: the total is positive and within
/// the representation limit, and no single value exceeds it.
pub open spec fn recalc_ok(p: PortfolioView) -> bool {
    &&& 0 < p.value <= TOTAL_LIMIT
    &&& forall|i: int| 0 <= i < p.assets.len() ==> 0 <= #[trigger] p.assets[i].value <= p.value
}

/// A value's share of the total, scaled up, lies between 0 and `SCALE`.
proof fn lemma_ratio_bound(v: int, t: int)
    requires
        0 <= v <= t,
        0 < t,
    ensures
        0 <= dec_div(v, t) <= (SCALE as int),
{
    lemma_dec_div_nonneg(v, t);
    assert(v * (SCALE as int) <= t * (SCALE as int)) by (nonlinear_arith)
        requires
            0 <= v <= t,
    ;
    vstd::arithmetic::div_mod::lemma_div_is_ordered(
        v * (SCALE as int),
        t * (SCALE as int),
        t,
    );
    vstd::arithmetic::div_mod::lemma_div_multiples_vanish(SCALE as int, t);
    assert(t * (SCALE as int) == (SCALE as int) * t) by (nonlinear_arith);
}

/// A recomputed allocation percentage lies between 0 and 100.
proof fn lemma_recalc_alloc_bound(v: int, t: int)
    requires
        0 <= v <= t,
        0 < t,
    ensures
        0 <= dec_mul(dec_div(v, t), 100 * (SCALE as int)) <= 100 * (SCALE as int),
{
    lemma_ratio_bound(v, t);
    let r = dec_div(v, t);
    lemma_dec_mul_nonneg(r, 100 * (SCALE as int));
    assert(r * (100 * (SCALE as int)) <= (SCALE as int) * (100 * (SCALE as int)))
        by (nonlinear_arith)
        requires
            0 <= r <= (SCALE as int),
    ;
    vstd::arithmetic::div_mod::lemma_div_is_ordered(
        r * (100 * (SCALE as int)),
        (SCALE as int) * (100 * (SCALE as int)),
        SCALE as int,
    );
    vstd::arithmetic::div_mod::lemma_div_multiples_vanish(
        100 * (SCALE as int),
        SCALE as int,
    );
}

/// `i` is the position of the first base-currency asset.
pub open spec fn is_first_currency(s: Seq<AssetView>, i: int) -> bool {
    &&& 0 <= i < s.len()
    &&& s[i].name == currency_name()
    &&& forall|j: int| 0 <= j < i ==> s[j].name != currency_name()
}

/// The position of the first base-currency asset.
pub open spec fn first_currency(s: Seq<AssetView>) -> int {
    choose|i: int| is_first_currency(s, i)
}

/// A portfolio with a base-currency asset has a first one.
pub proof fn lemma_first_currency_exists(s: Seq<AssetView>)
    requires
        has_currency(s),
    ensures
        is_first_currency(s, first_currency(s)),
{
    let w = choose|i: int| 0 <= i < s.len() && s[i].name == currency_name();
    lemma_first_at_or_before(s, w);
    let f = choose|i: int| is_first_currency(s, i);
    assert(is_first_currency(s, f));
}

proof fn lemma_first_at_or_before(s: Seq<AssetView>, w: int)
    requires
        0 <= w < s.len(),
        s[w].name == currency_name(),
    ensures
        exists|i: int| is_first_currency(s, i),
    decreases w,
{
    if forall|j: int| 0 <= j < w ==> s[j].name != currency_name() {
        assert(is_first_currency(s, w));
    } else {
        let j = choose|j: int| 0 <= j < w && s[j].name == currency_name();
        lemma_first_at_or_before(s, j);
    }
}

/// Whether `name` is the base-currency name.
fn is_currency(name: &String) -> (r: bool)
    ensures
        r == (name@ == currency_name()),
{
    let c: String = "USD".to_owned();
    *name == c
}

/// Turns a raw asset list into a validated portfolio.
///
/// Every value is recomputed, never trusted from the input: each asset's
/// value becomes `price * count` and the portfolio value their sum. The
/// load fails if the allocation percentages do not sum to exactly 100
/// (`InvalidAllocation`, carrying the actual sum), if no asset is named
/// after the base currency (`MissingCurrency`), or if a sum or derived
/// value does not fit the representation (`NumberTooLarge`).
pub fn load_portfolio(assets: Vec<Asset>, donotsell: bool) -> (r: Result<Portfolio, LoadError>)
    ensures
        ({
            let s = views_of(assets@);
            let n = s.len() as int;
            &&& (alloc_sum(s, n) > u128::MAX ==> r == Err::<Portfolio, LoadError>(
                LoadError::NumberTooLarge,
            ))
            &&& (alloc_sum(s, n) <= u128::MAX && alloc_sum(s, n) != 100 * (SCALE as int) ==> r
                == Err::<Portfolio, LoadError>(
                LoadError::InvalidAllocation(Dec { units: alloc_sum(s, n) as u128 }),
            ))
            &&& (alloc_sum(s, n) == 100 * (SCALE as int) && !has_currency(s) ==> r
                == Err::<Portfolio, LoadError>(LoadError::MissingCurrency))
            &&& (alloc_sum(s, n) == 100 * (SCALE as int) && has_currency(s) && !loadable(s) ==> r
                == Err::<Portfolio, LoadError>(LoadError::NumberTooLarge))
            &&& (alloc_sum(s, n) == 100 * (SCALE as int) && has_currency(s) && loadable(s)
                ==> match r {
                Ok(p) => {
                    &&& p@.assets == with_values(s)
                    &&& p@.donotsell == donotsell
                    &&& p@.value == value_sum(with_values(s), n)
                    &&& consistent(p@)
                    &&& valid_alloc(p@)
                    &&& has_currency(p@.assets)
                },
                Err(_) => false,
            })
        }),
{
    let ghost s = views_of(assets@);
    let n = assets.len();
    let ghost nn = s.len() as int;

    // Sum the target allocations.
    let mut sum: u128 = 0;
    let mut i: usize = 0;
    while i < n
        invariant
            0 <= i <= n,
            n == assets.len(),
            s == views_of(assets@),
            nn == s.len() as int,
            sum == alloc_sum(s, i as int),
        decreases n - i,
    {
        proof {
            assert(s[i as int] == assets@[i as int]@);
        }
        let a = assets[i].alloc.units();
        if a > u128::MAX - sum {
            proof {
                assert(forall|k: int| 0 <= k < nn ==> s[k].alloc >= 0) by {
                    assert(forall|k: int|
                        0 <= k < nn ==> s[k] == assets@[k]@ && #[trigger] s[k].alloc >= 0);
                }
                lemma_alloc_sum_mono(s, i as int + 1, nn);
            }
            return Err(LoadError::NumberTooLarge);
        }
        sum = sum + a;
        i = i + 1;
    }

    // The sum must be exactly 100.
    if sum != 100 * SCALE {
        return Err(LoadError::InvalidAllocation(Dec::from_units(sum)));
    }

    // A base-currency asset must be present.
    let mut found = false;
    i = 0;
    while i < n
        invariant
            0 <= i <= n,
            n == assets.len(),
            s == views_of(assets@),
            found ==> has_currency(s),
            !found ==> forall|j: int| 0 <= j < i ==> s[j].name != currency_name(),
        decreases n - i,
    {
        proof {
            assert(s[i as int] == assets@[i as int]@);
        }
        if is_currency(&assets[i].name) {
            found = true;
        }
        i = i + 1;
    }
    if !found {
        return Err(LoadError::MissingCurrency);
    }

    // Derive each asset's value and the portfolio total.
    let mut out: Vec<Asset> = Vec::new();
    let mut total: u128 = 0;
    i = 0;
    while i < n
        invariant
            0 <= i <= n,
            n == assets.len(),
            s == views_of(assets@),
            nn == s.len() as int,
            alloc_sum(s, nn) == 100 * (SCALE as int),
            has_currency(s),
            out@.len() == i,
            forall|k: int| 0 <= k < i ==> #[trigger] out@[k]@ == with_values(s)[k],
            forall|k: int| 0 <= k < i ==> #[trigger] (s[k].price * s[k].count) <= u128::MAX,
            total == value_sum(with_values(s), i as int),
            total <= u128::MAX,
        decreases n - i,
    {
        proof {
            assert(s[i as int] == assets@[i as int]@);
            assert(with_values(s)[i as int] == valued(s[i as int]));
        }
        let a = &assets[i];
        let v = match a.price.checked_mul(a.count) {
            Some(v) => v,
            None => {
                proof {
                    assert(!loadable(s));
                }
                return Err(LoadError::NumberTooLarge);
            },
        };
        let new_total = match Dec::from_units(total).checked_add(v) {
            Some(t) => t.units(),
            None => {
                proof {
                    assert(forall|k: int|
                        0 <= k < nn ==> #[trigger] with_values(s)[k].value >= 0) by {
                        assert(forall|k: int| 0 <= k < nn ==> s[k] == assets@[k]@);
                        assert forall|k: int| 0 <= k < nn implies #[trigger] with_values(
                            s,
                        )[k].value >= 0 by {
                            lemma_dec_mul_nonneg(s[k].price, s[k].count);
                        }
                    }
                    lemma_value_sum_mono(with_values(s), i as int + 1, nn);
                    assert(!loadable(s));
                }
                return Err(LoadError::NumberTooLarge);
            },
        };
        out.push(
            Asset {
                name: a.name.clone(),
                price: a.price,
                count: a.count,
                alloc: a.alloc,
                value: v,
            },
        );
        total = new_total;
        i = i + 1;
    }
    proof {
        assert(out@.map_values(|a: Asset| a@) =~= with_values(s));
        lemma_alloc_sum_with_values(s, nn);
        let w = choose|k: int| 0 <= k < s.len() && s[k].name == currency_name();
        assert(with_values(s)[w].name == currency_name());
        assert(forall|k: int|
            0 <= k < nn ==> #[trigger] with_values(s)[k] == valued(s[k]));
    }
    Ok(Portfolio { assets: out, donotsell, value: Dec::from_units(total) })
}

/// The position of the first base-currency asset, if any.
fn find_currency_index(assets: &Vec<Asset>) -> (r: Option<usize>)
    ensures
        match r {
            Some(i) => is_first_currency(views_of(assets@), i as int),
            None => !has_currency(views_of(assets@)),
        },
{
    let ghost s = views_of(assets@);
    let n = assets.len();
    let mut i: usize = 0;
    while i < n
        invariant
            0 <= i <= n,
            n == assets.len(),
            s == views_of(assets@),
            forall|j: int| 0 <= j < i ==> s[j].name != currency_name(),
        decreases n - i,
    {
        proof {
            assert(s[i as int] == assets@[i as int]@);
        }
        if is_currency(&assets[i].name) {
            return Some(i);
        }
        i = i + 1;
    }
    None
}

impl Asset {
    /// A copy of this asset.
    pub fn duplicate(&self) -> (r: Asset)
        ensures
            r@ == self@,
    {
        Asset {
            name: self.name.clone(),
            price: self.price,
            count: self.count,
            alloc: self.alloc,
            value: self.value,
        }
    }
}

impl Portfolio {
    /// The sum of all allocation percentages, or `None` when it does
    /// not fit the representation.
    pub fn get_allocation_sum(&self) -> (r: Option<Dec>)
        ensures
            match r {
                Some(d) => d@ == alloc_sum(self@.assets, self@.assets.len() as int),
                None => alloc_sum(self@.assets, self@.assets.len() as int) > u128::MAX,
            },
    {
        let ghost s = self@.assets;
        let n = self.assets.len();
        proof {
            assert(s.len() == self.assets@.len());
        }
        let mut sum = Dec::zero();
        let mut i: usize = 0;
        while i < n
            invariant
                0 <= i <= n,
                n == self.assets.len(),
                s == self@.assets,
                s.len() == n,
                sum@ == alloc_sum(s, i as int),
            decreases n - i,
        {
            proof {
                assert(s[i as int] == self.assets@[i as int]@);
            }
            sum = match sum.checked_add(self.assets[i].alloc) {
                Some(d) => d,
                None => {
                    proof {
                        assert(forall|k: int| 0 <= k < n ==> (#[trigger] s[k]).alloc >= 0) by {
                            assert(forall|k: int|
                                0 <= k < n ==> (#[trigger] s[k]) == self.assets@[k]@);
                        }
                        lemma_alloc_sum_mono(s, i as int + 1, n as int);
                    }
                    return None;
                },
            };
            i = i + 1;
        }
        Some(sum)
    }

    /// Whether the allocation percentages sum to exactly 100.
    pub fn is_target_allocation_sane(&self) -> (r: bool)
        requires
            alloc_sum(self@.assets, self@.assets.len() as int) <= u128::MAX,
        ensures
            r == valid_alloc(self@),
    {
        match self.get_allocation_sum() {
            Some(d) => d.units() == 100 * SCALE,
            None => false,
        }
    }

    /// The first base-currency asset, if any.
    pub fn get_currency(&self) -> (r: Option<Asset>)
        ensures
            r is Some <==> has_currency(self@.assets),
            match r {
                Some(a) => a@ == self@.assets[first_currency(self@.assets)] && is_first_currency(
                    self@.assets,
                    first_currency(self@.assets),
                ),
                None => !has_currency(self@.assets),
            },
    {
        proof {
            assert(views_of(self.assets@) =~= self@.assets);
        }
        match find_currency_index(&self.assets) {
            Some(i) => {
                proof {
                    lemma_first_currency_exists(self@.assets);
                    let f = first_currency(self@.assets);
                    assert(f == i as int) by {
                        if f < i as int {
                            assert(self@.assets[f].name != currency_name());
                        }
                        if f > i as int {
                            assert(self@.assets[i as int].name != currency_name());
                        }
                    }
                }
                Some(self.assets[i].duplicate())
            },
            None => None,
        }
    }

    /// Whether a base-currency asset is present.
    pub fn has_currency(&self) -> (r: bool)
        ensures
            r == has_currency(self@.assets),
    {
        proof {
            assert(views_of(self.assets@) =~= self@.assets);
        }
        match find_currency_index(&self.assets) {
            Some(_) => true,
            None => false,
        }
    }

    /// Derives each asset's value as `price * count` and adds the sum
    /// of the derived values onto the current portfolio total (which is
    /// zero for a freshly parsed portfolio).
    pub fn calculate_asset_values(&mut self)
        requires
            forall|i: int|
                0 <= i < old(self)@.assets.len() ==> #[trigger] (old(self)@.assets[i].price * old(
                    self,
                )@.assets[i].count) <= u128::MAX,
            old(self)@.value + value_sum(
                with_values(old(self)@.assets),
                old(self)@.assets.len() as int,
            ) <= u128::MAX,
        ensures
            final(self)@.assets == with_values(old(self)@.assets),
            final(self)@.value == old(self)@.value + value_sum(
                with_values(old(self)@.assets),
                old(self)@.assets.len() as int,
            ),
            final(self)@.donotsell == old(self)@.donotsell,
    {
        let ghost s = old(self)@.assets;
        let n = self.assets.len();
        proof {
            assert(s.len() == old(self).assets@.len());
            assert(forall|k: int| 0 <= k < n ==> #[trigger] s[k] == old(self).assets@[k]@);
            assert forall|k: int| 0 <= k < n implies 0 <= #[trigger] with_values(s)[k].value by {
                assert(with_values(s)[k] == valued(s[k]));
                lemma_dec_mul_nonneg(s[k].price, s[k].count);
            }
        }
        let mut i: usize = 0;
        while i < n
            invariant
                0 <= i <= n,
                n == self.assets.len(),
                n == s.len(),
                s == old(self)@.assets,
                forall|k: int|
                    0 <= k < n ==> #[trigger] (s[k].price * s[k].count) <= u128::MAX,
                forall|k: int| 0 <= k < n ==> 0 <= #[trigger] with_values(s)[k].value,
                old(self)@.value + value_sum(with_values(s), n as int) <= u128::MAX,
                self.donotsell == old(self).donotsell,
                forall|k: int| i <= k < n ==> #[trigger] self.assets@[k] == old(self).assets@[k],
                forall|k: int| 0 <= k < i ==> #[trigger] self.assets@[k]@ == with_values(s)[k],
                self.value@ == old(self)@.value + value_sum(with_values(s), i as int),
            decreases n - i,
        {
            proof {
                assert(s[i as int] == old(self).assets@[i as int]@);
                assert(with_values(s)[i as int] == valued(s[i as int]));
                lemma_value_sum_mono(with_values(s), i as int + 1, n as int);
                lemma_value_sum_mono(with_values(s), 0, i as int);
            }
            let v = self.assets[i].price.mul(self.assets[i].count);
            self.assets[i].value = v;
            self.value = self.value.add(v);
            i = i + 1;
        }
        proof {
            assert(self@.assets =~= with_values(s));
        }
    }

    /// Re-derives every displayed allocation from the current values:
    /// each asset's allocation becomes its value's share of the
    /// portfolio total, as a percentage. Values and the total are left
    /// unchanged.
    pub fn recalc_allocation(&mut self)
        requires
            recalc_ok(old(self)@),
        ensures
            final(self)@ == recalc_spec(old(self)@),
    {
        let n = self.assets.len();
        let hundred = Dec::from_whole(100);
        let mut i: usize = 0;
        while i < n
            invariant
                0 <= i <= n,
                n == self.assets.len(),
                n == old(self).assets@.len(),
                recalc_ok(old(self)@),
                self.donotsell == old(self).donotsell,
                self.value == old(self).value,
                forall|k: int| i <= k < n ==> self.assets@[k] == old(self).assets@[k],
                forall|k: int|
                    0 <= k < i ==> #[trigger] self.assets@[k]@ == recalc_asset(
                        old(self)@.assets[k],
                        old(self)@.value,
                    ),
                hundred@ == 100 * (SCALE as int),
            decreases n - i,
        {
            proof {
                assert(old(self)@.assets[i as int] == old(self).assets@[i as int]@);
                let pv = old(self)@.value;
                let av = old(self)@.assets[i as int].value;
                lemma_ratio_bound(av, pv);
                lemma_recalc_alloc_bound(av, pv);
                assert(pv * (SCALE as int) <= (TOTAL_LIMIT as int) * (SCALE as int))
                    by (nonlinear_arith)
                    requires
                        0 < pv <= TOTAL_LIMIT,
                ;
                assert(av * (SCALE as int) <= pv * (SCALE as int)) by (nonlinear_arith)
                    requires
                        0 <= av <= pv,
                ;
            }
            let ratio = self.assets[i].value.div(self.value);
            let new_alloc = ratio.mul(hundred);
            self.assets[i].alloc = new_alloc;
            i = i + 1;
        }
        proof {
            assert(self@.assets =~= recalc_assets(old(self)@.assets, old(self)@.value));
            assert(self@ =~= recalc_spec(old(self)@));
        }
    }

    /// Re-derives the allocations, then projects every asset to a
    /// `(name, whole-number percentage)` pair for display, in asset
    /// order. The percentage is the truncated whole part of the
    /// recomputed allocation, which always fits the reporting range.
    pub fn get_display_data(&mut self) -> (r: Result<Vec<(String, u64)>, EngineError>)
        requires
            recalc_ok(old(self)@),
        ensures
            final(self)@ == recalc_spec(old(self)@),
            match r {
                Ok(d) => {
                    &&& d@.len() == final(self)@.assets.len()
                    &&& forall|i: int|
                        0 <= i < d@.len() ==> (#[trigger] d@[i].0)@ == final(self)@.assets[i].name
                            && d@[i].1 == whole(final(self)@.assets[i].alloc)
                },
                Err(_) => false,
            },
    {
        let ghost p0 = old(self)@;
        self.recalc_allocation();
        let n = self.assets.len();
        proof {
            assert(self@.assets.len() == self.assets@.len());
            assert(recalc_spec(p0).assets.len() == p0.assets.len());
        }
        let mut data: Vec<(String, u64)> = Vec::new();
        let mut i: usize = 0;
        while i < n
            invariant
                0 <= i <= n,
                n == self.assets.len(),
                n == p0.assets.len(),
                recalc_ok(p0),
                self@ == recalc_spec(p0),
                data@.len() == i,
                forall|k: int|
                    0 <= k < i ==> (#[trigger] data@[k].0)@ == self@.assets[k].name && data@[k].1
                        == whole(self@.assets[k].alloc),
            decreases n - i,
        {
            proof {
                assert(self@.assets[i as int] == self.assets@[i as int]@);
                assert(0 <= p0.assets[i as int].value <= p0.value);
                lemma_recalc_alloc_bound(p0.assets[i as int].value, p0.value);
                assert(self@.assets[i as int] == recalc_asset(p0.assets[i as int], p0.value));
                vstd::arithmetic::div_mod::lemma_div_is_ordered(
                    self@.assets[i as int].alloc,
                    100 * (SCALE as int),
                    SCALE as int,
                );
                vstd::arithmetic::div_mod::lemma_div_multiples_vanish(100, SCALE as int);
                assert((SCALE as int) * 100 == 100 * (SCALE as int)) by (nonlinear_arith);
            }
            let a = &self.assets[i];
            let w: u128 = a.alloc.whole_part();
            if w > (u32::MAX as u128) {
                return Err(EngineError::QuantityOverflow);
            }
            data.push((a.name.clone(), w as u64));
            i = i + 1;
        }
        Ok(data)
    }
}

/// Bound on the original portfolio total accepted by the rebalancing
/// strategies.
pub const VALUE_LIMIT: u128 = 100_000_000_000_000_000_000;

/// Bound on a single asset price accepted by the rebalancing strategies.
pub const PRICE_LIMIT: u128 = 1_000_000_000_000_000_000;

/// Bound on a single asset count accepted by the top-up strategy.
pub const COUNT_LIMIT: u128 = 1_000_000_000_000_000_000;

/// The denominator times a truncated quotient is at most the dividend.
proof fn lemma_div_times_den_le(a: int, d: int)
    requires
        0 <= a,
        0 < d,
    ensures
        0 <= d * (a / d) <= a,
{
    vstd::arithmetic::div_mod::lemma_fundamental_div_mod(a, d);
    vstd::arithmetic::div_mod::lemma_mod_division_less_than_divisor(a, d);
    vstd::arithmetic::div_mod::lemma_div_pos_is_pos(a, d);
    assert(d * (a / d) >= 0) by (nonlinear_arith)
        requires
            d > 0 && a / d >= 0,
    ;
}

/// An element of a non-negative prefix is at most the prefix sum.
proof fn lemma_alloc_elem_le_sum(s: Seq<AssetView>, i: int, n: int)
    requires
        0 <= i < n <= s.len(),
        forall|k: int| 0 <= k < n ==> s[k].alloc >= 0,
    ensures
        s[i].alloc <= alloc_sum(s, n),
{
    lemma_alloc_sum_mono(s, 0, i);
    lemma_alloc_sum_mono(s, i + 1, n);
}

/// An element of a non-negative prefix is at most the prefix value sum.
proof fn lemma_value_elem_le_sum(s: Seq<AssetView>, i: int, n: int)
    requires
        0 <= i < n <= s.len(),
        forall|k: int| 0 <= k < n ==> s[k].value >= 0,
    ensures
        s[i].value <= value_sum(s, n),
{
    lemma_value_sum_mono(s, 0, i);
    lemma_value_sum_mono(s, i + 1, n);
}

/// Target count of one asset under a full rebalance against total `v`:
/// the asset's allocation share of `v`, at the asset's price.
pub open spec fn reb_count(v: int, a: AssetView) -> int {
    dec_div(dec_div(dec_mul(v, a.alloc), 100 * (SCALE as int)), a.price)
}

/// One asset after a full rebalance against total `v`.
pub open spec fn reb_asset(v: int, a: AssetView) -> AssetView {
    AssetView {
        name: a.name,
        price: a.price,
        count: reb_count(v, a),
        alloc: a.alloc,
        value: dec_mul(a.price, reb_count(v, a)),
    }
}

/// Every asset after a full rebalance against total `v`.
pub open spec fn reb_assets(v: int, s: Seq<AssetView>) -> Seq<AssetView> {
    s.map_values(|a: AssetView| reb_asset(v, a))
}

/// Total value of the rebalanced assets, before residue absorption.
pub open spec fn reb_subtotal(p: PortfolioView) -> int {
    value_sum(reb_assets(p.value, p.assets), p.assets.len() as int)
}

/// Whether the rounding residue is absorbed: some value was lost to
/// truncation and a base-currency asset exists to receive it.
pub open spec fn reb_leftover_case(p: PortfolioView) -> bool {
    p.value > reb_subtotal(p) && has_currency(p.assets)
}

/// The rebalanced assets after residue absorption: the whole leftover
/// is added to the first base-currency asset's value, and the matching
/// quantity (leftover at the currency's price) to its count.
pub open spec fn reb_sunk_assets(p: PortfolioView) -> Seq<AssetView> {
    let s1 = reb_assets(p.value, p.assets);
    if reb_leftover_case(p) {
        let j = first_currency(p.assets);
        let leftover = p.value - reb_subtotal(p);
        s1.update(
            j,
            (AssetView {
                name: s1[j].name,
                price: s1[j].price,
                count: s1[j].count + dec_div(leftover, s1[j].price),
                alloc: s1[j].alloc,
                value: s1[j].value + leftover,
            }),
        )
    } else {
        s1
    }
}

/// Total value of the target portfolio of a full rebalance: the sink
/// absorbs the entire leftover, so with a base currency present the
/// original total is conserved exactly.
pub open spec fn rebalance_total(p: PortfolioView) -> int {
    if reb_leftover_case(p) {
        p.value
    } else {
        reb_subtotal(p)
    }
}

/// The target portfolio of a full rebalance: rebalanced counts, residue
/// absorbed by the base currency, allocations re-derived.
pub open spec fn rebalance_spec(p: PortfolioView) -> PortfolioView {
    PortfolioView {
        assets: recalc_assets(reb_sunk_assets(p), rebalance_total(p)),
        donotsell: p.donotsell,
        value: rebalance_total(p),
    }
}

/// Size limits under which the full rebalance's arithmetic is defined:
/// the allocations sum to 100, every price is positive and within
/// limits, and the total is within limits.
pub open spec fn reb_limits(p: PortfolioView) -> bool {
    &&& valid_alloc(p)
    &&& forall|i: int| 0 <= i < p.assets.len() ==> 0 <= #[trigger] p.assets[i].alloc
    &&& forall|i: int|
        0 <= i < p.assets.len() ==> 1 <= #[trigger] p.assets[i].price <= PRICE_LIMIT
    &&& 0 <= p.value <= VALUE_LIMIT
}

/// When a full rebalance is defined: the limits hold and the target
/// total is positive (so allocations can be re-derived).
/// `can_rebalance` tests the latter.
pub open spec fn reb_ok(p: PortfolioView) -> bool {
    &&& reb_limits(p)
    &&& rebalance_total(p) > 0
}

/// Bounds on one rebalanced asset: everything is non-negative, the
/// intermediate products fit, and a hundredth of the scaled value stays
/// below the asset's allocation share of `v`.
proof fn lemma_reb_asset_bounds(v: int, a: AssetView)
    requires
        0 <= v,
        0 <= a.alloc,
        1 <= a.price,
    ensures
        0 <= dec_mul(v, a.alloc),
        (SCALE as int) * dec_mul(v, a.alloc) <= v * a.alloc,
        0 <= dec_div(dec_mul(v, a.alloc), 100 * (SCALE as int)),
        100 * (SCALE as int) * dec_div(dec_mul(v, a.alloc), 100 * (SCALE as int)) <= dec_mul(
            v,
            a.alloc,
        ) * (SCALE as int),
        0 <= reb_count(v, a),
        a.price * reb_count(v, a) <= dec_div(dec_mul(v, a.alloc), 100 * (SCALE as int)) * (
        SCALE as int),
        0 <= reb_asset(v, a).value <= dec_div(dec_mul(v, a.alloc), 100 * (SCALE as int)),
        100 * (SCALE as int) * reb_asset(v, a).value <= v * a.alloc,
{
    let sc = SCALE as int;
    let t1 = dec_mul(v, a.alloc);
    let t2 = dec_div(t1, 100 * sc);
    let tc = reb_count(v, a);
    let tval = reb_asset(v, a).value;
    lemma_dec_mul_nonneg(v, a.alloc);
    assert(v * a.alloc >= 0) by (nonlinear_arith)
        requires
            v >= 0 && a.alloc >= 0,
    ;
    lemma_div_times_den_le(v * a.alloc, sc);
    lemma_dec_div_nonneg(t1, 100 * sc);
    assert(t1 * sc >= 0) by (nonlinear_arith)
        requires
            t1 >= 0 && sc >= 0,
    ;
    lemma_div_times_den_le(t1 * sc, 100 * sc);
    lemma_dec_div_nonneg(t2, a.price);
    assert(t2 * sc >= 0) by (nonlinear_arith)
        requires
            t2 >= 0 && sc >= 0,
    ;
    lemma_div_times_den_le(t2 * sc, a.price);
    lemma_dec_mul_nonneg(a.price, tc);
    assert(a.price * tc >= 0) by (nonlinear_arith)
        requires
            a.price >= 1 && tc >= 0,
    ;
    lemma_div_times_den_le(a.price * tc, sc);
    // tval <= t2, from sc * tval <= a.price * tc <= t2 * sc
    assert(tval <= t2) by (nonlinear_arith)
        requires
            sc * tval <= t2 * sc && sc > 0 && sc * (t2 - tval) == sc * t2 - sc * tval && t2 * sc
                == sc * t2,
    ;
    // 100 sc * tval <= 100 sc * t2 <= t1 * sc == sc * t1 <= v * alloc
    assert(100 * sc * tval <= 100 * sc * t2) by (nonlinear_arith)
        requires
            tval <= t2 && sc > 0,
    ;
    assert(t1 * sc == sc * t1) by (nonlinear_arith);
}

/// Summed over any prefix, a hundredth of the scaled rebalanced values
/// stays below the allocation share of `v`: the rebalanced subtotal
/// cannot overshoot the original total.
proof fn lemma_reb_sum_bound(v: int, s: Seq<AssetView>, n: int)
    requires
        0 <= v,
        0 <= n <= s.len(),
        forall|k: int| 0 <= k < s.len() ==> 0 <= #[trigger] s[k].alloc,
        forall|k: int| 0 <= k < s.len() ==> 1 <= #[trigger] s[k].price,
    ensures
        0 <= value_sum(reb_assets(v, s), n),
        100 * (SCALE as int) * value_sum(reb_assets(v, s), n) <= v * alloc_sum(s, n),
    decreases n,
{
    let sc = SCALE as int;
    if n > 0 {
        lemma_reb_sum_bound(v, s, n - 1);
        lemma_reb_asset_bounds(v, s[n - 1]);
        assert(reb_assets(v, s)[n - 1] == reb_asset(v, s[n - 1]));
        let sa = value_sum(reb_assets(v, s), n - 1);
        let ea = reb_asset(v, s[n - 1]).value;
        let sb = alloc_sum(s, n - 1);
        let eb = s[n - 1].alloc;
        assert(100 * sc * (sa + ea) == 100 * sc * sa + 100 * sc * ea) by (nonlinear_arith);
        assert(v * (sb + eb) == v * sb + v * eb) by (nonlinear_arith);
    }
}

/// The views of a sequence of executable actions.
pub open spec fn action_views(v: Seq<Action>) -> Seq<ActionView> {
    v.map_values(|a: Action| a@)
}

/// Whether the count difference at one asset pair fits the reporting
/// integers: buys are reported as `u32`, sells through a signed
/// intermediate, so as `i32`.
pub open spec fn action_ok(o: AssetView, t: AssetView) -> bool {
    if t.count == o.count {
        true
    } else if t.count > o.count {
        whole(t.count - o.count) <= u32::MAX
    } else {
        whole(o.count - t.count) <= i32::MAX
    }
}

/// Whether every count difference among the first `n` asset pairs fits.
pub open spec fn actions_ok(os: Seq<AssetView>, ts: Seq<AssetView>, n: int) -> bool {
    forall|i: int| 0 <= i < n ==> action_ok(os[i], ts[i])
}

/// The actions needed at one asset pair: nothing when the counts agree,
/// otherwise one buy or sell of the whole-unit count difference. The
/// attached transaction value is the count difference at the original
/// asset's price, rounded up to the next unit so that it stays a
/// positive amount.
pub open spec fn action_at(o: AssetView, t: AssetView) -> Seq<ActionView> {
    if t.count == o.count {
        Seq::empty()
    } else if t.count > o.count {
        seq![
            (ActionView {
                buysell: BuySell::Buy,
                amount: whole(t.count - o.count),
                name: o.name,
                transaction_value: dec_mul_up(t.count - o.count, o.price),
            }),
        ]
    } else {
        seq![
            (ActionView {
                buysell: BuySell::Sell,
                amount: whole(o.count - t.count),
                name: o.name,
                transaction_value: dec_mul_up(o.count - t.count, o.price),
            }),
        ]
    }
}

/// The actions needed over the first `n` asset pairs, in asset order.
pub open spec fn actions_seq(os: Seq<AssetView>, ts: Seq<AssetView>, n: int) -> Seq<ActionView>
    decreases n,
{
    if n <= 0 {
        Seq::empty()
    } else {
        actions_seq(os, ts, n - 1) + action_at(os[n - 1], ts[n - 1])
    }
}

/// Diffing a portfolio against itself needs no action: every count
/// difference is zero, so the action list is empty and nothing can fail.
pub proof fn lemma_actions_identity(s: Seq<AssetView>, n: int)
    requires
        0 <= n <= s.len(),
    ensures
        actions_seq(s, s, n) == Seq::<ActionView>::empty(),
        actions_ok(s, s, n),
    decreases n,
{
    if n > 0 {
        lemma_actions_identity(s, n - 1);
        assert(action_at(s[n - 1], s[n - 1]) =~= Seq::<ActionView>::empty());
        assert(actions_seq(s, s, n) =~= Seq::<ActionView>::empty());
    } else {
        assert(actions_seq(s, s, n) =~= Seq::<ActionView>::empty());
    }
}

impl Portfolio {
    /// The ordered buy/sell actions that move this portfolio's counts to
    /// the target's, pairing assets by position. Pairs with equal counts
    /// produce no action; a count difference whose whole part does not
    /// fit the reporting integers fails with `QuantityOverflow`. Each
    /// action carries the money it moves — the count difference at the
    /// original asset's price, rounded up to the next representable
    /// unit — so the attached value is always positive.
    pub fn get_actions(&self, target: &Portfolio) -> (r: Result<Vec<Action>, EngineError>)
        requires
            self@.assets.len() == target@.assets.len(),
            forall|i: int|
                0 <= i < self@.assets.len() ==> self@.assets[i].name == target@.assets[i].name,
            forall|i: int| 0 <= i < self@.assets.len() ==> 1 <= #[trigger] self@.assets[i].price,
            forall|i: int|
                0 <= i < self@.assets.len() ==> #[trigger] (self@.assets[i].count
                    * self@.assets[i].price) + (SCALE as int) <= u128::MAX && (
                target@.assets[i].count * self@.assets[i].price) + (SCALE as int) <= u128::MAX,
        ensures
            r is Ok <==> actions_ok(self@.assets, target@.assets, self@.assets.len() as int),
            match r {
                Ok(v) => {
                    &&& action_views(v@) == actions_seq(
                        self@.assets,
                        target@.assets,
                        self@.assets.len() as int,
                    )
                    &&& forall|k: int|
                        0 <= k < v@.len() ==> (#[trigger] v@[k]@).transaction_value > 0
                },
                Err(e) => e == EngineError::QuantityOverflow,
            },
            self@.assets == target@.assets ==> match r {
                Ok(v) => v@.len() == 0,
                Err(_) => false,
            },
    {
        let ghost os = self@.assets;
        let ghost ts = target@.assets;
        let n = self.assets.len();
        proof {
            assert(os.len() == self.assets@.len());
            assert(ts.len() == target.assets@.len());
        }
        let mut ret: Vec<Action> = Vec::new();
        let mut i: usize = 0;
        while i < n
            invariant
                0 <= i <= n,
                n == self.assets.len(),
                n == target.assets.len(),
                os == self@.assets,
                ts == target@.assets,
                os.len() == n,
                ts.len() == n,
                forall|k: int| 0 <= k < n ==> 1 <= #[trigger] os[k].price,
                forall|k: int|
                    0 <= k < n ==> #[trigger] (os[k].count * os[k].price) + (SCALE as int)
                        <= u128::MAX && (ts[k].count * os[k].price) + (SCALE as int) <= u128::MAX,
                actions_ok(os, ts, i as int),
                action_views(ret@) == actions_seq(os, ts, i as int),
                forall|k: int|
                    0 <= k < ret@.len() ==> (#[trigger] ret@[k]@).transaction_value > 0,
            decreases n - i,
        {
            proof {
                assert(os[i as int] == self.assets@[i as int]@);
                assert(ts[i as int] == target.assets@[i as int]@);
                assert((os[i as int].count * os[i as int].price) + (SCALE as int) <= u128::MAX && (
                ts[i as int].count * os[i as int].price) + (SCALE as int) <= u128::MAX);
            }
            let a = &self.assets[i];
            let b = &target.assets[i];
            if b.count.units() == a.count.units() {
                proof {
                    assert(action_at(os[i as int], ts[i as int]) =~= Seq::<ActionView>::empty());
                    assert(action_views(ret@) =~= actions_seq(os, ts, i as int + 1));
                }
            } else if b.count.units() > a.count.units() {
                let diff = b.count.sub(a.count);
                proof {
                    let ov = os[i as int];
                    let tv = ts[i as int];
                    assert(diff@ * ov.price <= tv.count * ov.price) by (nonlinear_arith)
                        requires
                            0 <= diff@ <= tv.count && ov.price >= 0,
                    ;
                }
                let tval = diff.mul_up(a.price);
                let w: u128 = diff.whole_part();
                if w > (u32::MAX as u128) {
                    return Err(EngineError::QuantityOverflow);
                }
                ret.push(
                    Action {
                        buysell: BuySell::Buy,
                        amount: w as u32,
                        name: a.name.clone(),
                        transaction_value: tval,
                    },
                );
                proof {
                    assert(action_views(ret@) =~= actions_seq(os, ts, i as int + 1));
                }
            } else {
                let diff = a.count.sub(b.count);
                proof {
                    let ov = os[i as int];
                    assert(diff@ * ov.price <= ov.count * ov.price) by (nonlinear_arith)
                        requires
                            0 <= diff@ <= ov.count && ov.price >= 0,
                    ;
                }
                let tval = diff.mul_up(a.price);
                let w: u128 = diff.whole_part();
                if w > (i32::MAX as u128) {
                    return Err(EngineError::QuantityOverflow);
                }
                ret.push(
                    Action {
                        buysell: BuySell::Sell,
                        amount: w as u32,
                        name: a.name.clone(),
                        transaction_value: tval,
                    },
                );
                proof {
                    assert(action_views(ret@) =~= actions_seq(os, ts, i as int + 1));
                }
            }
            i = i + 1;
        }
        proof {
            if os == ts {
                lemma_actions_identity(os, n as int);
            }
        }
        Ok(ret)
    }

    /// Derives the full-rebalance target portfolio: every count becomes
    /// the asset's allocation share of the original total at the asset's
    /// price; the entire truncation residue is then added to the first
    /// base-currency asset's count and value, conserving the original
    /// total; allocations are finally re-derived from the new values.
    pub fn rebalance(&self) -> (r: Portfolio)
        requires
            reb_ok(self@),
        ensures
            r@ == rebalance_spec(self@),
    {
        let ghost p = self@;
        let ghost s = p.assets;
        let ghost v = p.value;
        let ghost sc = SCALE as int;
        let n = self.assets.len();
        proof {
            assert(s.len() == self.assets@.len());
        }
        let hundred = Dec::from_whole(100);
        let mut tassets: Vec<Asset> = Vec::new();
        let mut total: u128 = 0;
        let mut i: usize = 0;
        while i < n
            invariant
                0 <= i <= n,
                n == self.assets.len(),
                p == self@,
                s == p.assets,
                v == p.value,
                sc == SCALE as int,
                s.len() == n,
                reb_ok(p),
                hundred@ == 100 * sc,
                tassets@.len() == i,
                forall|k: int| 0 <= k < i ==> #[trigger] tassets@[k]@ == reb_assets(v, s)[k],
                total == value_sum(reb_assets(v, s), i as int),
            decreases n - i,
        {
            proof {
                assert(s[i as int] == self.assets@[i as int]@);
                let a = s[i as int];
                assert(0 <= a.alloc && 1 <= a.price <= PRICE_LIMIT);
                lemma_alloc_elem_le_sum(s, i as int, n as int);
                lemma_reb_asset_bounds(v, a);
                lemma_reb_sum_bound(v, s, i as int + 1);
                lemma_alloc_sum_mono(s, i as int + 1, n as int);
                let t1 = dec_mul(v, a.alloc);
                let t2 = dec_div(t1, 100 * sc);
                assert(v * a.alloc <= (VALUE_LIMIT as int) * (100 * sc)) by (nonlinear_arith)
                    requires
                        0 <= v <= VALUE_LIMIT && 0 <= a.alloc <= 100 * sc && sc == SCALE as int,
                ;
                assert(t1 * sc <= v * a.alloc) by (nonlinear_arith)
                    requires
                        sc * t1 <= v * a.alloc && t1 >= 0 && sc >= 1,
                ;
                assert(t2 * sc <= t1 * sc) by (nonlinear_arith)
                    requires
                        100 * sc * t2 <= t1 * sc && t2 >= 0 && sc >= 1,
                ;
                assert(reb_assets(v, s)[i as int] == reb_asset(v, a));
                let w = value_sum(reb_assets(v, s), i as int + 1);
                assert(w <= v) by (nonlinear_arith)
                    requires
                        100 * sc * w <= v * alloc_sum(s, i as int + 1) && alloc_sum(
                            s,
                            i as int + 1,
                        ) <= 100 * sc && v >= 0 && sc >= 1,
                ;
            }
            let a = &self.assets[i];
            let t1 = self.value.mul(a.alloc);
            let t2 = t1.div(hundred);
            let tc = t2.div(a.price);
            let val = a.price.mul(tc);
            tassets.push(
                Asset { name: a.name.clone(), price: a.price, count: tc, alloc: a.alloc, value: val },
            );
            total = total + val.units();
            i = i + 1;
        }
        let ghost s1 = reb_assets(v, s);
        proof {
            assert(views_of(tassets@) =~= s1);
            assert(forall|k: int| 0 <= k < n ==> (#[trigger] s1[k]).name == s[k].name);
            assert forall|k: int| 0 <= k < n implies 0 <= #[trigger] s1[k].value by {
                lemma_reb_asset_bounds(v, s[k]);
            }
            lemma_rebalance_leftover_nonneg(p);
        }
        let mut tvalue: u128 = total;
        if self.value.units() > total {
            match find_currency_index(&tassets) {
                Some(j) => {
                    proof {
                        assert(is_first_currency(s1, j as int));
                        assert(s1[j as int].name == s[j as int].name);
                        assert forall|jj: int| 0 <= jj < j as int implies s[jj].name
                            != currency_name() by {
                            assert(s1[jj].name != currency_name());
                            assert(s1[jj].name == s[jj].name);
                        }
                        assert(is_first_currency(s, j as int));
                        lemma_first_currency_exists(s);
                        let f = first_currency(s);
                        assert(f == j as int) by {
                            if f < j as int {
                                assert(s[f].name != currency_name());
                            }
                            if f > j as int {
                                assert(s[j as int].name != currency_name());
                            }
                        }
                        assert(reb_leftover_case(p));
                        let l = v - reb_subtotal(p);
                        let pj = s1[j as int].price;
                        assert(pj == s[j as int].price);
                        assert(l * sc <= (VALUE_LIMIT as int) * sc) by (nonlinear_arith)
                            requires
                                0 <= l <= VALUE_LIMIT && sc >= 1,
                        ;
                        lemma_dec_div_nonneg(l, pj);
                        lemma_div_times_den_le(l * sc, pj);
                        let ex = dec_div(l, pj);
                        assert(ex <= l * sc) by (nonlinear_arith)
                            requires
                                pj * ex <= l * sc && ex >= 0 && pj >= 1,
                        ;
                        lemma_alloc_elem_le_sum(s, j as int, n as int);
                        lemma_reb_asset_bounds(v, s[j as int]);
                        let aj = s[j as int];
                        let t1 = dec_mul(v, aj.alloc);
                        let t2 = dec_div(t1, 100 * sc);
                        assert(t2 <= v) by (nonlinear_arith)
                            requires
                                100 * sc * t2 <= t1 * sc && t1 * sc == sc * t1 && sc * t1 <= v
                                    * aj.alloc && aj.alloc <= 100 * sc && t2 >= 0 && v >= 0 && sc
                                    >= 1,
                        ;
                        let tc = reb_count(v, aj);
                        assert(tc <= t2 * sc) by (nonlinear_arith)
                            requires
                                aj.price * tc <= t2 * sc && aj.price >= 1 && tc >= 0,
                        ;
                        assert(t2 * sc <= (VALUE_LIMIT as int) * sc) by (nonlinear_arith)
                            requires
                                0 <= t2 <= VALUE_LIMIT && sc >= 1,
                        ;
                        assert(t1 * sc == sc * t1) by (nonlinear_arith);
                    }
                    let leftover = self.value.sub(Dec::from_units(total));
                    let extra = leftover.div(tassets[j].price);
                    let sink_count = tassets[j].count.add(extra);
                    let sink_value = tassets[j].value.add(leftover);
                    tassets[j].count = sink_count;
                    tassets[j].value = sink_value;
                    tvalue = total + leftover.units();
                    proof {
                        assert(views_of(tassets@) =~= reb_sunk_assets(p));
                    }
                },
                None => {
                    proof {
                        assert(!has_currency(s)) by {
                            if has_currency(s) {
                                let w = choose|k: int|
                                    0 <= k < s.len() && s[k].name == currency_name();
                                assert(s1[w].name == currency_name());
                            }
                        }
                        assert(views_of(tassets@) =~= reb_sunk_assets(p));
                    }
                },
            }
        } else {
            proof {
                assert(views_of(tassets@) =~= reb_sunk_assets(p));
            }
        }
        let mut target = Portfolio {
            assets: tassets,
            donotsell: self.donotsell,
            value: Dec::from_units(tvalue),
        };
        proof {
            assert(target@.assets =~= reb_sunk_assets(p));
            assert(tvalue == rebalance_total(p));
            let s2 = reb_sunk_assets(p);
            assert forall|k: int| 0 <= k < n implies 0 <= #[trigger] s2[k].value by {
                lemma_reb_asset_bounds(v, s[k]);
            }
            assert forall|k: int| 0 <= k < n implies #[trigger] s2[k].value <= tvalue by {
                lemma_value_elem_le_sum(s1, k, n as int);
                if reb_leftover_case(p) {
                    let j = first_currency(p.assets);
                    if k == j {
                        assert(s2[k].value == s1[k].value + (v - reb_subtotal(p)));
                    } else {
                        assert(s2[k] == s1[k]);
                    }
                }
            }
            assert(recalc_ok(target@));
        }
        target.recalc_allocation();
        proof {
            assert(target@ =~= rebalance_spec(p));
        }
        target
    }

    /// Derives the cash-only top-up target portfolio: the base
    /// currency's current value is the deployable cash; every other
    /// asset's count grows by its allocation share of that cash at the
    /// asset's price, and the base currency is zeroed out. Fails with
    /// `MissingCurrency` when no base-currency asset exists or when the
    /// one found holds no value: a positive cash pool is a hard
    /// precondition of the strategy. No existing holding is ever
    /// reduced.
    pub fn add_without_selling(&self) -> (r: Result<Portfolio, EngineError>)
        requires
            aws_ok(self@),
        ensures
            r is Ok <==> has_currency(self@.assets) && aws_cash(self@) > 0,
            match r {
                Ok(t) => {
                    &&& t@ == aws_spec(self@)
                    &&& forall|i: int|
                        0 <= i < self@.assets.len() && self@.assets[i].name != currency_name()
                            ==> t@.assets[i].count >= self@.assets[i].count
                    &&& forall|i: int|
                        0 <= i < self@.assets.len() && self@.assets[i].name == currency_name()
                            ==> t@.assets[i].count == 0 && t@.assets[i].value == 0
                },
                Err(e) => e == EngineError::MissingCurrency && (!has_currency(self@.assets)
                    || aws_cash(self@) == 0),
            },
    {
        let ghost p = self@;
        let ghost s = p.assets;
        let ghost sc = SCALE as int;
        let n = self.assets.len();
        proof {
            assert(s.len() == self.assets@.len());
        }
        let currency = match self.get_currency() {
            Some(c) => c,
            None => {
                return Err(EngineError::MissingCurrency);
            },
        };
        let cv = currency.value;
        let ghost cvg = cv@;
        if cv.units() == 0 {
            proof {
                assert(cvg == aws_cash(p));
            }
            return Err(EngineError::MissingCurrency);
        }
        proof {
            assert(cvg == aws_cash(p));
            assert forall|k: int| 0 <= k < n implies 0 <= #[trigger] s[k].value by {
                assert(s[k] == self.assets@[k]@);
            }
            lemma_value_elem_le_sum(s, first_currency(s), n as int);
            assert(0 < cvg <= VALUE_LIMIT);
        }
        let hundred = Dec::from_whole(100);
        let mut tassets: Vec<Asset> = Vec::new();
        let mut total: u128 = 0;
        let mut i: usize = 0;
        while i < n
            invariant
                0 <= i <= n,
                n == self.assets.len(),
                p == self@,
                s == p.assets,
                sc == SCALE as int,
                s.len() == n,
                aws_ok(p),
                has_currency(s),
                cvg == aws_cash(p),
                0 < cvg <= VALUE_LIMIT,
                cv@ == cvg,
                hundred@ == 100 * sc,
                tassets@.len() == i,
                forall|k: int| 0 <= k < i ==> #[trigger] tassets@[k]@ == aws_assets(cvg, s)[k],
                total == value_sum(aws_assets(cvg, s), i as int),
            decreases n - i,
        {
            proof {
                assert(s[i as int] == self.assets@[i as int]@);
                let a = s[i as int];
                assert(0 <= a.alloc && 1 <= a.price <= PRICE_LIMIT && 0 <= a.count <= COUNT_LIMIT);
                lemma_alloc_elem_le_sum(s, i as int, n as int);
                lemma_reb_asset_bounds(cvg, a);
                lemma_aws_asset_bounds(cvg, a);
                lemma_aws_sum_bound(cvg, s, i as int + 1);
                lemma_alloc_sum_mono(s, i as int + 1, n as int);
                lemma_value_sum_mono(s, i as int + 1, n as int);
                let t1 = dec_mul(cvg, a.alloc);
                let t2 = dec_div(t1, 100 * sc);
                assert(cvg * a.alloc <= (VALUE_LIMIT as int) * (100 * sc)) by (nonlinear_arith)
                    requires
                        0 <= cvg <= VALUE_LIMIT && 0 <= a.alloc <= 100 * sc && sc == SCALE as int,
                ;
                assert(t1 * sc <= cvg * a.alloc) by (nonlinear_arith)
                    requires
                        sc * t1 <= cvg * a.alloc && t1 >= 0 && sc >= 1,
                ;
                assert(t2 * sc <= t1 * sc) by (nonlinear_arith)
                    requires
                        100 * sc * t2 <= t1 * sc && t2 >= 0 && sc >= 1,
                ;
                assert(a.price * a.count <= (PRICE_LIMIT as int) * (COUNT_LIMIT as int))
                    by (nonlinear_arith)
                    requires
                        1 <= a.price <= PRICE_LIMIT && 0 <= a.count <= COUNT_LIMIT,
                ;
                assert(aws_assets(cvg, s)[i as int] == aws_asset(cvg, a));
                let w = value_sum(aws_assets(cvg, s), i as int + 1);
                assert(w <= p.value + cvg) by (nonlinear_arith)
                    requires
                        100 * sc * w <= 100 * sc * value_sum(s, i as int + 1) + cvg * alloc_sum(
                            s,
                            i as int + 1,
                        ) && value_sum(s, i as int + 1) <= p.value && alloc_sum(s, i as int + 1)
                            <= 100 * sc && w >= 0 && cvg >= 0 && p.value >= 0 && sc >= 1,
                ;
            }
            let a = &self.assets[i];
            if is_currency(&a.name) {
                tassets.push(
                    Asset {
                        name: a.name.clone(),
                        price: a.price,
                        count: Dec::zero(),
                        alloc: a.alloc,
                        value: Dec::zero(),
                    },
                );
            } else {
                let t1 = cv.mul(a.alloc);
                let t2 = t1.div(hundred);
                let topup = t2.div(a.price);
                let nc = a.count.add(topup);
                let nv = a.price.mul(nc);
                tassets.push(
                    Asset {
                        name: a.name.clone(),
                        price: a.price,
                        count: nc,
                        alloc: a.alloc,
                        value: nv,
                    },
                );
            }
            let pushed = &tassets[tassets.len() - 1];
            total = total + pushed.value.units();
            i = i + 1;
        }
        let mut target = Portfolio {
            assets: tassets,
            donotsell: self.donotsell,
            value: Dec::from_units(total),
        };
        proof {
            let s2 = aws_assets(cvg, s);
            assert(target@.assets =~= s2);
            assert(total == aws_subtotal(p));
            assert forall|k: int| 0 <= k < n implies 0 <= #[trigger] s2[k].value by {
                lemma_aws_asset_bounds(cvg, s[k]);
            }
            assert forall|k: int| 0 <= k < n implies #[trigger] s2[k].value <= total by {
                lemma_value_elem_le_sum(s2, k, n as int);
            }
            lemma_aws_sum_bound(cvg, s, n as int);
            assert(total <= p.value + cvg) by (nonlinear_arith)
                requires
                    100 * sc * total <= 100 * sc * p.value + cvg * (100 * sc) && total >= 0 && cvg
                        >= 0 && p.value >= 0 && sc >= 1,
            ;
            assert(0 < total <= TOTAL_LIMIT);
            assert(recalc_ok(target@));
        }
        target.recalc_allocation();
        proof {
            assert(target@ =~= aws_spec(p));
            let s3 = target@.assets;
            assert forall|k: int|
                0 <= k < n && s[k].name != currency_name() implies s3[k].count >= s[k].count by {
                lemma_reb_asset_bounds(cvg, s[k]);
                assert(s3[k] == recalc_asset(aws_asset(cvg, s[k]), aws_subtotal(p)));
            }
            assert forall|k: int|
                0 <= k < n && s[k].name == currency_name() implies s3[k].count == 0 && s3[k].value
                == 0 by {
                assert(s3[k] == recalc_asset(aws_asset(cvg, s[k]), aws_subtotal(p)));
            }
        }
        Ok(target)
    }

    /// Whether a full rebalance is defined for this portfolio: its
    /// derived target total must be positive, so that allocations can
    /// be re-derived afterwards. An unverified caller tests this before
    /// calling `rebalance`.
    pub fn can_rebalance(&self) -> (r: bool)
        requires
            reb_limits(self@),
        ensures
            r == (rebalance_total(self@) > 0),
    {
        let ghost p = self@;
        let ghost s = p.assets;
        let ghost v = p.value;
        let ghost sc = SCALE as int;
        let n = self.assets.len();
        proof {
            assert(s.len() == self.assets@.len());
        }
        let hundred = Dec::from_whole(100);
        let mut total: u128 = 0;
        let mut i: usize = 0;
        while i < n
            invariant
                0 <= i <= n,
                n == self.assets.len(),
                p == self@,
                s == p.assets,
                v == p.value,
                sc == SCALE as int,
                s.len() == n,
                reb_limits(p),
                hundred@ == 100 * sc,
                total == value_sum(reb_assets(v, s), i as int),
            decreases n - i,
        {
            proof {
                assert(s[i as int] == self.assets@[i as int]@);
                let a = s[i as int];
                assert(0 <= a.alloc && 1 <= a.price <= PRICE_LIMIT);
                lemma_alloc_elem_le_sum(s, i as int, n as int);
                lemma_reb_asset_bounds(v, a);
                lemma_reb_sum_bound(v, s, i as int + 1);
                lemma_alloc_sum_mono(s, i as int + 1, n as int);
                let t1 = dec_mul(v, a.alloc);
                let t2 = dec_div(t1, 100 * sc);
                assert(v * a.alloc <= (VALUE_LIMIT as int) * (100 * sc)) by (nonlinear_arith)
                    requires
                        0 <= v <= VALUE_LIMIT && 0 <= a.alloc <= 100 * sc && sc == SCALE as int,
                ;
                assert(t1 * sc <= v * a.alloc) by (nonlinear_arith)
                    requires
                        sc * t1 <= v * a.alloc && t1 >= 0 && sc >= 1,
                ;
                assert(t2 * sc <= t1 * sc) by (nonlinear_arith)
                    requires
                        100 * sc * t2 <= t1 * sc && t2 >= 0 && sc >= 1,
                ;
                assert(reb_assets(v, s)[i as int] == reb_asset(v, a));
                let w = value_sum(reb_assets(v, s), i as int + 1);
                assert(w <= v) by (nonlinear_arith)
                    requires
                        100 * sc * w <= v * alloc_sum(s, i as int + 1) && alloc_sum(
                            s,
                            i as int + 1,
                        ) <= 100 * sc && v >= 0 && sc >= 1,
                ;
            }
            let a = &self.assets[i];
            let t1 = self.value.mul(a.alloc);
            let t2 = t1.div(hundred);
            let tc = t2.div(a.price);
            let val = a.price.mul(tc);
            total = total + val.units();
            i = i + 1;
        }
        if self.value.units() > total {
            if self.has_currency() {
                proof {
                    assert(views_of(self.assets@) =~= s);
                    assert(reb_leftover_case(p));
                }
                true
            } else {
                total > 0
            }
        } else {
            total > 0
        }
    }

    /// Whether a cash-only top-up is defined for this portfolio: a
    /// base-currency asset with a positive value must exist and the
    /// derived target total must be positive, so that allocations can
    /// be re-derived afterwards. An unverified caller tests this before
    /// calling `add_without_selling`.
    pub fn can_add_without_selling(&self) -> (r: bool)
        requires
            aws_limits(self@),
        ensures
            r == (has_currency(self@.assets) && aws_cash(self@) > 0 && aws_subtotal(self@) > 0),
    {
        let ghost p = self@;
        let ghost s = p.assets;
        let ghost sc = SCALE as int;
        let n = self.assets.len();
        proof {
            assert(s.len() == self.assets@.len());
        }
        let currency = match self.get_currency() {
            Some(c) => c,
            None => {
                return false;
            },
        };
        let cv = currency.value;
        let ghost cvg = cv@;
        if cv.units() == 0 {
            proof {
                assert(cvg == aws_cash(p));
            }
            return false;
        }
        proof {
            assert(cvg == aws_cash(p));
            assert forall|k: int| 0 <= k < n implies 0 <= #[trigger] s[k].value by {
                assert(s[k] == self.assets@[k]@);
            }
            lemma_value_elem_le_sum(s, first_currency(s), n as int);
            assert(0 < cvg <= VALUE_LIMIT);
        }
        let hundred = Dec::from_whole(100);
        let mut total: u128 = 0;
        let mut i: usize = 0;
        while i < n
            invariant
                0 <= i <= n,
                n == self.assets.len(),
                p == self@,
                s == p.assets,
                sc == SCALE as int,
                s.len() == n,
                aws_limits(p),
                has_currency(s),
                cvg == aws_cash(p),
                0 < cvg <= VALUE_LIMIT,
                cv@ == cvg,
                hundred@ == 100 * sc,
                total == value_sum(aws_assets(cvg, s), i as int),
            decreases n - i,
        {
            proof {
                assert(s[i as int] == self.assets@[i as int]@);
                let a = s[i as int];
                assert(0 <= a.alloc && 1 <= a.price <= PRICE_LIMIT && 0 <= a.count <= COUNT_LIMIT);
                lemma_alloc_elem_le_sum(s, i as int, n as int);
                lemma_reb_asset_bounds(cvg, a);
                lemma_aws_asset_bounds(cvg, a);
                lemma_aws_sum_bound(cvg, s, i as int + 1);
                lemma_alloc_sum_mono(s, i as int + 1, n as int);
                lemma_value_sum_mono(s, i as int + 1, n as int);
                let t1 = dec_mul(cvg, a.alloc);
                let t2 = dec_div(t1, 100 * sc);
                assert(cvg * a.alloc <= (VALUE_LIMIT as int) * (100 * sc)) by (nonlinear_arith)
                    requires
                        0 <= cvg <= VALUE_LIMIT && 0 <= a.alloc <= 100 * sc && sc == SCALE as int,
                ;
                assert(t1 * sc <= cvg * a.alloc) by (nonlinear_arith)
                    requires
                        sc * t1 <= cvg * a.alloc && t1 >= 0 && sc >= 1,
                ;
                assert(t2 * sc <= t1 * sc) by (nonlinear_arith)
                    requires
                        100 * sc * t2 <= t1 * sc && t2 >= 0 && sc >= 1,
                ;
                assert(a.price * a.count <= (PRICE_LIMIT as int) * (COUNT_LIMIT as int))
                    by (nonlinear_arith)
                    requires
                        1 <= a.price <= PRICE_LIMIT && 0 <= a.count <= COUNT_LIMIT,
                ;
                assert(aws_assets(cvg, s)[i as int] == aws_asset(cvg, a));
                let w = value_sum(aws_assets(cvg, s), i as int + 1);
                assert(w <= p.value + cvg) by (nonlinear_arith)
                    requires
                        100 * sc * w <= 100 * sc * value_sum(s, i as int + 1) + cvg * alloc_sum(
                            s,
                            i as int + 1,
                        ) && value_sum(s, i as int + 1) <= p.value && alloc_sum(s, i as int + 1)
                            <= 100 * sc && w >= 0 && cvg >= 0 && p.value >= 0 && sc >= 1,
                ;
            }
            let a = &self.assets[i];
            if is_currency(&a.name) {
                proof {
                    assert(aws_asset(cvg, s[i as int]).value == 0);
                }
            } else {
                let t1 = cv.mul(a.alloc);
                let t2 = t1.div(hundred);
                let topup = t2.div(a.price);
                let nc = a.count.add(topup);
                let nv = a.price.mul(nc);
                total = total + nv.units();
            }
            i = i + 1;
        }
        total > 0
    }
}

/// One asset after a cash-only top-up with deployable cash `cv`: the
/// base currency is zeroed out, every other asset's count grows by its
/// allocation share of the cash at the asset's price.
pub open spec fn aws_asset(cv: int, a: AssetView) -> AssetView {
    if a.name == currency_name() {
        AssetView { name: a.name, price: a.price, count: 0, alloc: a.alloc, value: 0 }
    } else {
        AssetView {
            name: a.name,
            price: a.price,
            count: a.count + reb_count(cv, a),
            alloc: a.alloc,
            value: dec_mul(a.price, a.count + reb_count(cv, a)),
        }
    }
}

/// Every asset after a cash-only top-up with deployable cash `cv`.
pub open spec fn aws_assets(cv: int, s: Seq<AssetView>) -> Seq<AssetView> {
    s.map_values(|a: AssetView| aws_asset(cv, a))
}

/// The deployable cash: the first base-currency asset's current value.
pub open spec fn aws_cash(p: PortfolioView) -> int {
    p.assets[first_currency(p.assets)].value
}

/// Total value of the topped-up assets.
pub open spec fn aws_subtotal(p: PortfolioView) -> int {
    value_sum(aws_assets(aws_cash(p), p.assets), p.assets.len() as int)
}

/// The target portfolio of a cash-only top-up: counts topped up, the
/// base currency zeroed, allocations re-derived from the new values.
pub open spec fn aws_spec(p: PortfolioView) -> PortfolioView {
    PortfolioView {
        assets: recalc_assets(aws_assets(aws_cash(p), p.assets), aws_subtotal(p)),
        donotsell: p.donotsell,
        value: aws_subtotal(p),
    }
}

/// Size limits under which the cash-only top-up's arithmetic is
/// defined, given that a base-currency asset with a positive value
/// exists (otherwise the strategy fails instead of computing):
/// validated allocations, derived values, and sizes within limits.
pub open spec fn aws_limits(p: PortfolioView) -> bool {
    has_currency(p.assets) && aws_cash(p) > 0 ==> {
        &&& valid_alloc(p)
        &&& consistent(p)
        &&& forall|i: int| 0 <= i < p.assets.len() ==> 0 <= #[trigger] p.assets[i].alloc
        &&& forall|i: int|
            0 <= i < p.assets.len() ==> 1 <= #[trigger] p.assets[i].price <= PRICE_LIMIT
        &&& forall|i: int|
            0 <= i < p.assets.len() ==> 0 <= #[trigger] p.assets[i].count <= COUNT_LIMIT
        &&& 0 <= p.value <= VALUE_LIMIT
    }
}

/// When a cash-only top-up is defined: the limits hold and, where the
/// strategy computes at all, the target total is positive (so
/// allocations can be re-derived). `can_add_without_selling` tests the
/// latter.
pub open spec fn aws_ok(p: PortfolioView) -> bool {
    &&& aws_limits(p)
    &&& (has_currency(p.assets) && aws_cash(p) > 0 ==> aws_subtotal(p) > 0)
}

/// Bounds on one topped-up asset: the top-up is non-negative, the
/// products fit, and a hundredth of the scaled new value stays below
/// the old value plus the allocation share of the cash.
proof fn lemma_aws_asset_bounds(cv: int, a: AssetView)
    requires
        0 <= cv,
        0 <= a.alloc,
        1 <= a.price,
        0 <= a.count,
        a.value == dec_mul(a.price, a.count),
    ensures
        0 <= reb_count(cv, a),
        a.price * (a.count + reb_count(cv, a)) <= a.price * a.count + dec_div(
            dec_mul(cv, a.alloc),
            100 * (SCALE as int),
        ) * (SCALE as int),
        0 <= dec_mul(a.price, a.count + reb_count(cv, a)) <= a.value + dec_div(
            dec_mul(cv, a.alloc),
            100 * (SCALE as int),
        ),
        100 * (SCALE as int) * dec_mul(a.price, a.count + reb_count(cv, a)) <= 100 * (SCALE as int)
            * a.value + cv * a.alloc,
        reb_count(cv, a) <= dec_div(dec_mul(cv, a.alloc), 100 * (SCALE as int)) * (SCALE as int),
        0 <= a.value,
{
    let sc = SCALE as int;
    let t1 = dec_mul(cv, a.alloc);
    let t2 = dec_div(t1, 100 * sc);
    let tu = reb_count(cv, a);
    let nc = a.count + tu;
    lemma_reb_asset_bounds(cv, a);
    lemma_dec_mul_nonneg(a.price, a.count);
    assert(a.price * a.count >= 0) by (nonlinear_arith)
        requires
            a.price >= 1 && a.count >= 0,
    ;
    vstd::arithmetic::div_mod::lemma_fundamental_div_mod(a.price * a.count, sc);
    vstd::arithmetic::div_mod::lemma_mod_division_less_than_divisor(a.price * a.count, sc);
    assert(a.price * nc == a.price * a.count + a.price * tu) by (nonlinear_arith)
        requires
            nc == a.count + tu,
    ;
    assert(tu <= t2 * sc) by (nonlinear_arith)
        requires
            a.price * tu <= t2 * sc && a.price >= 1 && tu >= 0,
    ;
    // price * nc <= sc * (a.value + t2 + 1) - 1
    assert(sc * (a.value + t2 + 1) - 1 == a.value * sc + t2 * sc + sc - 1) by (nonlinear_arith);
    assert(a.price * a.count <= a.value * sc + sc - 1) by (nonlinear_arith)
        requires
            a.price * a.count == sc * a.value + (a.price * a.count) % sc && (a.price * a.count)
                % sc < sc,
    ;
    lemma_dec_mul_nonneg(a.price, nc);
    vstd::arithmetic::div_mod::lemma_div_is_ordered(
        a.price * nc,
        sc * (a.value + t2 + 1) - 1,
        sc,
    );
    vstd::arithmetic::div_mod::lemma_fundamental_div_mod_converse(
        sc * (a.value + t2 + 1) - 1,
        sc,
        a.value + t2,
        sc - 1,
    );
    assert(sc * (a.value + t2 + 1) - 1 == (a.value + t2) * sc + (sc - 1)) by (nonlinear_arith);
    let nb = dec_mul(a.price, nc);
    assert(100 * sc * nb <= 100 * sc * (a.value + t2)) by (nonlinear_arith)
        requires
            nb <= a.value + t2 && sc >= 1,
    ;
    assert(100 * sc * (a.value + t2) == 100 * sc * a.value + 100 * sc * t2) by (nonlinear_arith);
    assert(t1 * sc == sc * t1) by (nonlinear_arith);
}

/// Summed over any prefix, a hundredth of the scaled topped-up values
/// stays below the old values plus the allocation share of the cash.
proof fn lemma_aws_sum_bound(cv: int, s: Seq<AssetView>, n: int)
    requires
        0 <= cv,
        0 <= n <= s.len(),
        forall|k: int| 0 <= k < s.len() ==> 0 <= #[trigger] s[k].alloc,
        forall|k: int| 0 <= k < s.len() ==> 1 <= #[trigger] s[k].price,
        forall|k: int| 0 <= k < s.len() ==> 0 <= #[trigger] s[k].count,
        forall|k: int|
            0 <= k < s.len() ==> #[trigger] s[k].value == dec_mul(s[k].price, s[k].count),
    ensures
        0 <= value_sum(aws_assets(cv, s), n),
        100 * (SCALE as int) * value_sum(aws_assets(cv, s), n) <= 100 * (SCALE as int) * value_sum(
            s,
            n,
        ) + cv * alloc_sum(s, n),
    decreases n,
{
    let sc = SCALE as int;
    if n > 0 {
        lemma_aws_sum_bound(cv, s, n - 1);
        lemma_aws_asset_bounds(cv, s[n - 1]);
        assert(aws_assets(cv, s)[n - 1] == aws_asset(cv, s[n - 1]));
        let ea = aws_asset(cv, s[n - 1]).value;
        let sa = value_sum(aws_assets(cv, s), n - 1);
        let sb = value_sum(s, n - 1);
        let eb = s[n - 1].value;
        let sa2 = alloc_sum(s, n - 1);
        let ea2 = s[n - 1].alloc;
        if s[n - 1].name == currency_name() {
            assert(ea == 0);
            assert(cv * ea2 >= 0) by (nonlinear_arith)
                requires
                    cv >= 0 && ea2 >= 0,
            ;
        } else {
            assert(100 * sc * ea <= 100 * sc * eb + cv * ea2);
        }
        assert(100 * sc * (sa + ea) == 100 * sc * sa + 100 * sc * ea) by (nonlinear_arith);
        assert(100 * sc * (sb + eb) == 100 * sc * sb + 100 * sc * eb) by (nonlinear_arith);
        assert(cv * (sa2 + ea2) == cv * sa2 + cv * ea2) by (nonlinear_arith);
        assert(100 * sc * eb >= 0) by (nonlinear_arith)
            requires
                eb >= 0 && sc >= 1,
        ;
    }
}

/// Re-deriving allocations is idempotent: a second pass reads the same
/// values and the same total, so it assigns the same allocations.
pub proof fn lemma_recalc_idempotent(p: PortfolioView)
    ensures
        recalc_spec(recalc_spec(p)) == recalc_spec(p),
{
    let q = recalc_spec(p);
    assert forall|k: int| 0 <= k < q.assets.len() implies recalc_assets(q.assets, q.value)[k]
        == q.assets[k] by {
        assert(q.assets[k] == recalc_asset(p.assets[k], p.value));
        assert(recalc_assets(q.assets, q.value)[k] == recalc_asset(q.assets[k], q.value));
        assert(recalc_asset(q.assets[k], q.value) =~= q.assets[k]);
    }
    assert(recalc_assets(q.assets, q.value) =~= q.assets);
    assert(recalc_spec(q) =~= q);
}

/// The rebalanced subtotal never exceeds the original total: the
/// rounding leftover absorbed by the base currency is non-negative.
pub proof fn lemma_rebalance_leftover_nonneg(p: PortfolioView)
    requires
        valid_alloc(p),
        forall|i: int| 0 <= i < p.assets.len() ==> 0 <= #[trigger] p.assets[i].alloc,
        forall|i: int| 0 <= i < p.assets.len() ==> 1 <= #[trigger] p.assets[i].price,
        0 <= p.value,
    ensures
        0 <= reb_subtotal(p) <= p.value,
{
    let sc = SCALE as int;
    let n = p.assets.len() as int;
    lemma_reb_sum_bound(p.value, p.assets, n);
    let t = reb_subtotal(p);
    assert(t <= p.value) by (nonlinear_arith)
        requires
            100 * sc * t <= p.value * (100 * sc) && t >= 0 && p.value >= 0 && sc >= 1,
    ;
}

/// A full rebalance conserves the portfolio's total value whenever a
/// base-currency asset exists to absorb the residue: the leftover is
/// never negative, and the sink takes all of it.
pub proof fn lemma_rebalance_conserves_value(p: PortfolioView)
    requires
        valid_alloc(p),
        forall|i: int| 0 <= i < p.assets.len() ==> 0 <= #[trigger] p.assets[i].alloc,
        forall|i: int| 0 <= i < p.assets.len() ==> 1 <= #[trigger] p.assets[i].price,
        0 <= p.value,
        has_currency(p.assets),
    ensures
        rebalance_spec(p).value == p.value,
{
    lemma_rebalance_leftover_nonneg(p);
}

} // verus!

