//! The report of a simulation: a table of the equity curve and a page with figures and a chart.

use crate::decimal;
use crate::decimal::{fixed_signed_text, fixed_text, numeral_text};
use crate::double::Double;
use crate::json;
use crate::json::quoted;
use crate::metrics::{AdvancedMetrics, CurvePoint};
use crate::text;
use vstd::prelude::*;
use vstd::string::*;

verus! {

pub const HEAD: &'static str = r#"<!DOCTYPE html>
<html lang="es">
<head>
    <meta charset="UTF-8">
    <meta name="viewport" content="width=device-width, initial-scale=1.0">
    <title>Gemma Trading Bot - Allianz - Dashboard</title>
    <script src="https://cdn.tailwindcss.com"></script>
    <script src="https://cdn.jsdelivr.net/npm/chart.js"></script>
    <link href="https://fonts.googleapis.com/css2?family=Outfit:wght@300;400;500;600;700&display=swap" rel="stylesheet">
    <style>
        body {
            background: radial-gradient(circle at top, #111827 0%, #030712 100%);
            font-family: 'Outfit', sans-serif;
        }
        .panel-fixed-16-10 {
            width: 100vw;
            height: 62.5vw;
            max-height: 100vh;
            max-width: 160vh;
            aspect-ratio: 16 / 10;
        }
    </style>
</head>
<body class="h-screen w-screen overflow-hidden text-slate-100 flex items-center justify-center p-2 md:p-4 bg-[#030712]">
    <div class="panel-fixed-16-10 flex flex-col justify-between bg-slate-900/20 backdrop-blur-md border border-slate-800/80 rounded-2xl p-4 md:p-6 shadow-2xl overflow-hidden box-border">
        
        <!-- Header -->
        <div class="flex flex-col md:flex-row justify-between items-start md:items-center border-b border-slate-800 pb-3 gap-2 flex-shrink-0">
            <div>
                <h1 class="text-2xl font-bold tracking-tight bg-gradient-to-r from-violet-400 via-fuchsia-500 to-pink-500 bg-clip-text text-transparent">
                    Gemma Trading Bot - Allianz
                </h1>
                <p class="text-slate-400 text-xs mt-0.5">Reporte de Backtesting - BTCUSDT Futuros Apalancado</p>
            </div>
            <div class="bg-slate-900/80 backdrop-blur-md border border-slate-800 rounded-xl px-3 py-1.5 text-xs text-slate-400 flex items-center gap-2 shadow-lg">
                <span class="w-2 h-2 rounded-full bg-emerald-500 animate-pulse"></span>
                Simulación Completada
            </div>
        </div>

        <!-- Reconditioned 2x7 Metrics Grid Grouped by Affinity (Compact) -->
        <div class="grid grid-cols-2 md:grid-cols-4 lg:grid-cols-7 gap-3 flex-shrink-0">
            <!-- fila 1: Métricas de Rendimiento y Retorno -->
            <div class="bg-slate-900/60 backdrop-blur-md border border-slate-800/80 rounded-xl p-3 shadow-xl flex flex-col justify-between hover:border-slate-700/80 transition duration-300">
                <span class="text-slate-400 text-xs font-medium">Balance Inicial</span>
                <span class="text-lg font-bold text-slate-200 mt-1">$"#;

pub const TO_FINAL_BALANCE: &'static str = r#"</span>
                <span class="text-[10px] text-slate-500 mt-0.5">USDT</span>
            </div>

            <div class="bg-slate-900/60 backdrop-blur-md border border-slate-800/80 rounded-xl p-3 shadow-xl flex flex-col justify-between hover:border-slate-700/80 transition duration-300">
                <span class="text-slate-400 text-xs font-medium">Balance Final</span>
                <span class="text-lg font-bold text-slate-100 mt-1">$"#;

pub const TO_ROI_COLOR: &'static str = r#"</span>
                <span class="text-[10px] text-slate-500 mt-0.5">USDT</span>
            </div>

            <div class="bg-slate-900/60 backdrop-blur-md border border-slate-800/80 rounded-xl p-3 shadow-xl flex flex-col justify-between hover:border-slate-700/80 transition duration-300">
                <span class="text-slate-400 text-xs font-medium">Retorno (ROI)</span>
                <span class="text-lg font-bold mt-1 "#;

pub const TO_ROI: &'static str = r#"">"#;

pub const TO_SHARPE: &'static str = r#"%</span>
                <span class="text-[10px] text-slate-500 mt-0.5">Desde el inicio</span>
            </div>

            <div class="bg-slate-900/60 backdrop-blur-md border border-slate-800/80 rounded-xl p-3 shadow-xl flex flex-col justify-between hover:border-slate-700/80 transition duration-300">
                <span class="text-slate-400 text-xs font-medium">Sharpe Ratio</span>
                <span class="text-lg font-bold text-sky-400 mt-1">"#;

pub const TO_RECOVERY: &'static str = r#"</span>
                <span class="text-[10px] text-slate-500 mt-0.5">Anualizado</span>
            </div>

            <div class="bg-slate-900/60 backdrop-blur-md border border-slate-800/80 rounded-xl p-3 shadow-xl flex flex-col justify-between hover:border-slate-700/80 transition duration-300">
                <span class="text-slate-400 text-xs font-medium">Recovery Factor</span>
                <span class="text-lg font-bold text-amber-500 mt-1">"#;

pub const TO_CORRELATION: &'static str = r#"</span>
                <span class="text-[10px] text-slate-500 mt-0.5">Net Profit / Max DD</span>
            </div>

            <div class="bg-slate-900/60 backdrop-blur-md border border-slate-800/80 rounded-xl p-3 shadow-xl flex flex-col justify-between hover:border-slate-700/80 transition duration-300">
                <span class="text-slate-400 text-xs font-medium">Corr. Buy & Hold</span>
                <span class="text-lg font-bold text-sky-400 mt-1">"#;

pub const TO_DRAWDOWN: &'static str = r#"</span>
                <span class="text-[10px] text-slate-500 mt-0.5">Correlación lineal</span>
            </div>

            <div class="bg-slate-900/60 backdrop-blur-md border border-slate-800/80 rounded-xl p-3 shadow-xl flex flex-col justify-between hover:border-slate-700/80 transition duration-300">
                <span class="text-slate-400 text-xs font-medium">Máximo Drawdown</span>
                <span class="text-lg font-bold text-rose-500 mt-1">-"#;

pub const TO_TRADES: &'static str = r#"%</span>
                <span class="text-[10px] text-slate-500 mt-0.5">Pico a valle</span>
            </div>

            <!-- fila 2: Métricas de Operativa y Análisis de Trades -->
            <div class="bg-slate-900/60 backdrop-blur-md border border-slate-800/80 rounded-xl p-3 shadow-xl flex flex-col justify-between hover:border-slate-700/80 transition duration-300">
                <span class="text-slate-400 text-xs font-medium">Operaciones Totales</span>
                <span class="text-lg font-bold text-violet-400 mt-1">"#;

pub const TO_BUYS: &'static str = r#"</span>
                <span class="text-[10px] text-slate-500 mt-0.5">Ejecutadas</span>
            </div>

            <div class="bg-slate-900/60 backdrop-blur-md border border-slate-800/80 rounded-xl p-3 shadow-xl flex flex-col justify-between hover:border-slate-700/80 transition duration-300">
                <span class="text-slate-400 text-xs font-medium">Compras (Longs)</span>
                <span class="text-lg font-bold text-emerald-400 mt-1">"#;

pub const TO_SELLS: &'static str = r#"</span>
                <span class="text-[10px] text-slate-500 mt-0.5">Velas de compra</span>
            </div>

            <div class="bg-slate-900/60 backdrop-blur-md border border-slate-800/80 rounded-xl p-3 shadow-xl flex flex-col justify-between hover:border-slate-700/80 transition duration-300">
                <span class="text-slate-400 text-xs font-medium">Ventas (Shorts)</span>
                <span class="text-lg font-bold text-amber-400 mt-1">"#;

pub const TO_WINRATE: &'static str = r#"</span>
                <span class="text-[10px] text-slate-500 mt-0.5">Velas de venta</span>
            </div>

            <div class="bg-slate-900/60 backdrop-blur-md border border-slate-800/80 rounded-xl p-3 shadow-xl flex flex-col justify-between hover:border-slate-700/80 transition duration-300">
                <span class="text-slate-400 text-xs font-medium">Winrate</span>
                <span class="text-lg font-bold text-violet-400 mt-1">"#;

pub const TO_PROFIT_FACTOR: &'static str = r#"%</span>
                <span class="text-[10px] text-slate-500 mt-0.5">Porcentaje de acierto</span>
            </div>

            <div class="bg-slate-900/60 backdrop-blur-md border border-slate-800/80 rounded-xl p-3 shadow-xl flex flex-col justify-between hover:border-slate-700/80 transition duration-300">
                <span class="text-slate-400 text-xs font-medium">Profit Factor</span>
                <span class="text-lg font-bold text-emerald-400 mt-1">"#;

pub const TO_LIQUIDATION_COLOR: &'static str = r#"</span>
                <span class="text-[10px] text-slate-500 mt-0.5">Beneficio / Pérdida</span>
            </div>

            <div class="bg-slate-900/60 backdrop-blur-md border border-slate-800/80 rounded-xl p-3 shadow-xl flex flex-col justify-between hover:border-slate-700/80 transition duration-300">
                <span class="text-slate-400 text-xs font-medium">Liquidaciones</span>
                <span class="text-lg font-bold mt-1 "#;

pub const TO_LIQUIDATIONS: &'static str = r#"">"#;

pub const TO_STAGNATION: &'static str = r#"</span>
                <span class="text-[10px] text-slate-500 mt-0.5">Margen perdido</span>
            </div>

            <div class="bg-slate-900/60 backdrop-blur-md border border-slate-800/80 rounded-xl p-3 shadow-xl flex flex-col justify-between hover:border-slate-700/80 transition duration-300">
                <span class="text-slate-400 text-xs font-medium">Estancamiento</span>
                <span class="text-base font-bold text-slate-200 mt-1">Max: "#;

pub const TO_AVERAGE: &'static str = r#" v.</span>
                <span class="text-[10px] text-slate-400 mt-0.5">Promedio: "#;

pub const TO_LABELS: &'static str = r#" v.</span>
            </div>
        </div>

        <!-- Chart (Flex-grow to occupy all remaining screen height) -->
        <div class="bg-slate-900/60 backdrop-blur-md border border-slate-800/80 rounded-2xl p-4 shadow-2xl flex-grow flex flex-col min-h-0">
            <h2 class="text-sm font-semibold text-slate-200 mb-2 flex items-center gap-2 flex-shrink-0">
                <svg class="w-4 h-4 text-violet-400" fill="none" stroke="currentColor" viewBox="0 0 24 24"><path stroke-linecap="round" stroke-linejoin="round" stroke-width="2" d="M7 12l3-3 3 3 4-4M8 21h8a2 2 0 002-2V5a2 2 0 00-2-2H8a2 2 0 00-2 2v14a2 2 0 002 2z"></path></svg>
                Comparativa de Equidad (Gemma vs Buy & Hold)
            </h2>
            <div class="flex-grow w-full relative min-h-0">
                <canvas id="equityChart" style="position: absolute; top: 0; left: 0; width: 100%; height: 100%;"></canvas>
            </div>
        </div>
    </div>

    <script>
        const labels = "#;

pub const TO_DATA: &'static str = r#";
        const dataPoints = "#;

pub const TO_MARKET_DATA: &'static str = r#";
        const bhDataPoints = "#;

pub const TAIL: &'static str = r#";

        const ctx = document.getElementById('equityChart').getContext('2d');
        const gradient = ctx.createLinearGradient(0, 0, 0, 400);
        gradient.addColorStop(0, 'rgba(139, 92, 246, 0.4)');
        gradient.addColorStop(1, 'rgba(139, 92, 246, 0.0)');

        new Chart(ctx, {
            type: 'line',
            data: {
                labels: labels,
                datasets: [
                    {
                        label: 'Gemma Trading Bot (USDT)',
                        data: dataPoints,
                        borderColor: '#a78bfa',
                        borderWidth: 2,
                        pointRadius: labels.length > 50 ? 0 : 3,
                        pointHoverRadius: 6,
                        fill: true,
                        backgroundColor: gradient,
                        tension: 0.2
                    },
                    {
                        label: 'Buy & Hold BTC (USDT)',
                        data: bhDataPoints,
                        borderColor: '#64748b',
                        borderWidth: 1.5,
                        borderDash: [5, 5],
                        pointRadius: 0,
                        fill: false,
                        tension: 0.2
                    }
                ]
            },
            options: {
                responsive: true,
                maintainAspectRatio: false,
                plugins: {
                    legend: {
                        display: true,
                        labels: {
                            color: '#cbd5e1',
                            font: { family: 'Outfit', size: 12 }
                        }
                    },
                    tooltip: {
                        mode: 'index',
                        intersect: false,
                        backgroundColor: '#1e293b',
                        titleColor: '#cbd5e1',
                        bodyColor: '#f8fafc',
                        borderColor: '#475569',
                        borderWidth: 1
                    }
                },
                scales: {
                    x: {
                        grid: { display: false },
                        ticks: {
                            color: '#94a3b8',
                            font: { family: 'Outfit' },
                            callback: function(value, index, ticks) {
                                const total = ticks.length;
                                if (total <= 10) {
                                    return this.getLabelForValue(value);
                                }
                                if (index === 0 || index === total - 1) {
                                    return this.getLabelForValue(value);
                                }
                                const step = (total - 1) / 9;
                                for (let i = 1; i <= 8; i++) {
                                    if (Math.abs(index - Math.round(i * step)) < 0.5) {
                                        return this.getLabelForValue(value);
                                    }
                                }
                                return '';
                            },
                            autoSkip: false,
                            maxRotation: 0,
                            minRotation: 0
                        }
                    },
                    y: {
                        grid: { color: '#1e293b' },
                        ticks: {
                            color: '#94a3b8',
                            font: { family: 'Outfit' },
                            callback: function(value) {
                                return '$' + value.toLocaleString();
                            }
                        }
                    }
                }
            }
        });
    </script>
</body>
</html>"#;

/// The gain from one balance to another in percent, zero without a balance to begin with.
pub open spec fn roi(initial: Double, last: Double) -> Double {
    if Double::zero().below(initial) {
        last.minus(initial).over(initial).times(Double::of(100))
    } else {
        Double::zero()
    }
}

/// The colour of a gain.
pub open spec fn roi_color(gain: Double) -> Seq<char> {
    if Double::zero().at_most(gain) {
        "text-emerald-400"@
    } else {
        "text-rose-500"@
    }
}

/// The colour of a count of liquidations.
pub open spec fn liquidation_color(count: nat) -> Seq<char> {
    if count > 0 {
        "text-rose-500 animate-pulse"@
    } else {
        "text-slate-400"@
    }
}

/// The balances at the beginning and at the end of a curve, zero for an empty one.
pub open spec fn balances(curve: Seq<CurvePoint>) -> (Double, Double) {
    if curve.len() == 0 {
        (Double::zero(), Double::zero())
    } else {
        (curve[0].equity, curve.last().equity)
    }
}

/// The times of the first `n` points as JSON strings, with commas in between.
pub open spec fn labels(curve: Seq<CurvePoint>, n: nat) -> Seq<char>
    decreases n,
{
    if n == 0 {
        Seq::empty()
    } else {
        (if n == 1 {
            Seq::empty()
        } else {
            labels(curve, (n - 1) as nat) + ","@
        }) + json::json_quoted(curve[n - 1].time@)
    }
}

/// The times of the points as a JSON list.
pub open spec fn labels_json(curve: Seq<CurvePoint>, n: nat) -> Seq<char> {
    "["@ + labels(curve, n) + "]"@
}

fn labels_text(curve: &Vec<CurvePoint>) -> (r: String)
    ensures
        r@ == labels_json(curve@, curve@.len()),
{
    let mut list = String::new();
    let mut n: usize = 0;
    while n < curve.len()
        invariant
            n <= curve@.len(),
            list@ =~= labels(curve@, n as nat),
        decreases curve@.len() - n,
    {
        if n > 0 {
            list.append(",");
        }
        let label = quoted(curve[n].time.as_str());
        list.append(label.as_str());
        n = n + 1;
    }
    let mut out = "[".to_owned();
    out.append(list.as_str());
    out.append("]");
    out
}

/// The page of a simulation.
#[verifier::opaque]
pub open spec fn page(
    curve: Seq<CurvePoint>,
    num_compras: u128,
    num_ventas: u128,
    num_liquidaciones: u128,
    figures: AdvancedMetrics,
    times: Seq<char>,
    data: Seq<char>,
    market_data: Seq<char>,
) -> Seq<char> {
    let (initial, last) = balances(curve);
    let gain = roi(initial, last);
    HEAD@ + decimal::fixed(initial, 2)
        + TO_FINAL_BALANCE@ + decimal::fixed(last, 2)
        + TO_ROI_COLOR@ + roi_color(gain)
        + TO_ROI@ + decimal::fixed_signed(gain, 2)
        + TO_SHARPE@ + decimal::fixed(figures.sortino_ratio, 2)
        + TO_RECOVERY@ + decimal::fixed(figures.recovery_factor, 2)
        + TO_CORRELATION@ + decimal::fixed_signed(figures.correlation, 4)
        + TO_DRAWDOWN@ + decimal::fixed(figures.max_drawdown.times(Double::of(100)), 2)
        + TO_TRADES@ + decimal::numeral((num_compras + num_ventas) as nat)
        + TO_BUYS@ + decimal::numeral(num_compras as nat)
        + TO_SELLS@ + decimal::numeral(num_ventas as nat)
        + TO_WINRATE@ + decimal::fixed(figures.winrate, 2)
        + TO_PROFIT_FACTOR@ + decimal::fixed(figures.profit_factor, 2)
        + TO_LIQUIDATION_COLOR@ + liquidation_color(num_liquidaciones as nat)
        + TO_LIQUIDATIONS@ + decimal::numeral(num_liquidaciones as nat)
        + TO_STAGNATION@ + decimal::numeral(figures.max_stagnation as nat)
        + TO_AVERAGE@ + decimal::fixed(figures.avg_stagnation, 1)
        + TO_LABELS@ + times
        + TO_DATA@ + data
        + TO_MARKET_DATA@ + market_data
        + TAIL@
}

/// The page of a simulation. `labels_json`, `data_json` and `bh_data_json` are the times, the
/// equities and what the market alone would have made, as JSON lists.
pub fn page_with_lists(
    curve: &Vec<CurvePoint>,
    num_compras: u128,
    num_ventas: u128,
    num_liquidaciones: u128,
    figures: &AdvancedMetrics,
    labels_json: &str,
    data_json: &str,
    bh_data_json: &str,
) -> (r: String)
    requires
        num_compras + num_ventas <= u128::MAX,
    ensures
        r@ == page(
            curve@,
            num_compras,
            num_ventas,
            num_liquidaciones,
            *figures,
            labels_json@,
            data_json@,
            bh_data_json@,
        ),
{
    proof {
        reveal(page);
    }
    let zero = Double { bits: 0 };
    let (initial, last) = if curve.len() == 0 {
        (zero, zero)
    } else {
        (curve[0].equity, curve[curve.len() - 1].equity)
    };
    let gain = if zero.lt(initial) {
        last.sub(initial).div(initial).mul(Double::from_u64(100))
    } else {
        zero
    };
    let mut out = HEAD.to_owned();
    let first_text = fixed_text(initial, 2);
    out.append(first_text.as_str());
    out.append(TO_FINAL_BALANCE);
    let last_text = fixed_text(last, 2);
    out.append(last_text.as_str());
    out.append(TO_ROI_COLOR);
    if zero.le(gain) {
        out.append("text-emerald-400");
    } else {
        out.append("text-rose-500");
    }
    out.append(TO_ROI);
    let gain_text = fixed_signed_text(gain, 2);
    out.append(gain_text.as_str());
    out.append(TO_SHARPE);
    let ratio_text = fixed_text(figures.sortino_ratio, 2);
    out.append(ratio_text.as_str());
    out.append(TO_RECOVERY);
    let recovery_text = fixed_text(figures.recovery_factor, 2);
    out.append(recovery_text.as_str());
    out.append(TO_CORRELATION);
    let correlation_text = fixed_signed_text(figures.correlation, 4);
    out.append(correlation_text.as_str());
    out.append(TO_DRAWDOWN);
    let drawdown_text = fixed_text(figures.max_drawdown.mul(Double::from_u64(100)), 2);
    out.append(drawdown_text.as_str());
    out.append(TO_TRADES);
    let trades_text = numeral_text(num_compras + num_ventas);
    out.append(trades_text.as_str());
    out.append(TO_BUYS);
    let buys_text = numeral_text(num_compras);
    out.append(buys_text.as_str());
    out.append(TO_SELLS);
    let sells_text = numeral_text(num_ventas);
    out.append(sells_text.as_str());
    out.append(TO_WINRATE);
    let winrate_text = fixed_text(figures.winrate, 2);
    out.append(winrate_text.as_str());
    out.append(TO_PROFIT_FACTOR);
    let profit_text = fixed_text(figures.profit_factor, 2);
    out.append(profit_text.as_str());
    out.append(TO_LIQUIDATION_COLOR);
    if num_liquidaciones > 0 {
        out.append("text-rose-500 animate-pulse");
    } else {
        out.append("text-slate-400");
    }
    out.append(TO_LIQUIDATIONS);
    let liquidations_text = numeral_text(num_liquidaciones);
    out.append(liquidations_text.as_str());
    out.append(TO_STAGNATION);
    let stagnation_text = numeral_text(figures.max_stagnation as u128);
    out.append(stagnation_text.as_str());
    out.append(TO_AVERAGE);
    let average_text = fixed_text(figures.avg_stagnation, 1);
    out.append(average_text.as_str());
    out.append(TO_LABELS);
    out.append(labels_json);
    out.append(TO_DATA);
    out.append(data_json);
    out.append(TO_MARKET_DATA);
    out.append(bh_data_json);
    out.append(TAIL);
    out
}

/// The page of a simulation. `data_json` and `bh_data_json` are the equities and what the market
/// alone would have made, as JSON lists.
pub fn generate_dashboard(
    curve: &Vec<CurvePoint>,
    num_compras: u128,
    num_ventas: u128,
    num_liquidaciones: u128,
    figures: &AdvancedMetrics,
    data_json: &str,
    bh_data_json: &str,
) -> (r: String)
    requires
        num_compras + num_ventas <= u128::MAX,
    ensures
        r@ == page(
            curve@,
            num_compras,
            num_ventas,
            num_liquidaciones,
            *figures,
            labels_json(curve@, curve@.len()),
            data_json@,
            bh_data_json@,
        ),
{
    let times = labels_text(curve);
    page_with_lists(
        curve,
        num_compras,
        num_ventas,
        num_liquidaciones,
        figures,
        times.as_str(),
        data_json,
        bh_data_json,
    )
}

/// The lines of the first `n` points of a table: time, equity and market, whose numbers are given
/// as text.
pub open spec fn table_lines(
    curve: Seq<CurvePoint>,
    equities: Seq<Seq<char>>,
    market: Seq<Seq<char>>,
    n: nat,
) -> Seq<char>
    decreases n,
{
    if n == 0 {
        Seq::empty()
    } else {
        table_lines(curve, equities, market, (n - 1) as nat) + curve[n - 1].time@ + ","@
            + equities[n - 1] + ","@ + market[n - 1] + "\n"@
    }
}

/// The equity curve as a table of comma-separated values.
pub fn equity_csv(curve: &Vec<CurvePoint>, equities: &Vec<String>, market: &Vec<String>) -> (r:
    String)
    requires
        equities@.len() == curve@.len(),
        market@.len() == curve@.len(),
    ensures
        r@ == "time,equity,buy_and_hold\n"@ + table_lines(
            curve@,
            text::views(equities@),
            text::views(market@),
            curve@.len(),
        ),
{
    let mut lines = String::new();
    let mut n: usize = 0;
    while n < curve.len()
        invariant
            n <= curve@.len(),
            equities@.len() == curve@.len(),
            market@.len() == curve@.len(),
            lines@ == table_lines(curve@, text::views(equities@), text::views(market@), n as nat),
        decreases curve@.len() - n,
    {
        lines.append(curve[n].time.as_str());
        lines.append(",");
        lines.append(equities[n].as_str());
        lines.append(",");
        lines.append(market[n].as_str());
        lines.append("\n");
        n = n + 1;
    }
    let mut out = "time,equity,buy_and_hold\n".to_owned();
    out.append(lines.as_str());
    out
}

} // verus!
