pub mod account_laws;
pub mod backtest;
pub mod backtest_run;
pub mod bingx;
pub mod bingx_answers;
pub mod box_laws;
pub mod clock;
pub mod dashboard;
pub mod db;
pub mod decimal;
pub mod decimal_laws;
pub mod decimal_reader;
pub mod double;
pub mod double_laws;
pub mod error_laws;
pub mod indicator_laws;
pub mod indicators;
pub mod json;
pub mod ledger;
pub mod liquidation_laws;
pub mod live;
pub mod llm;
pub mod market_laws;
pub mod menu;
pub mod metric_laws;
pub mod metrics;
pub mod positions;
pub mod prompts;
pub mod reading_laws;
pub mod report_laws;
pub mod rounding;
pub mod run_laws;
pub mod simulation;
pub mod strategy_laws;
pub mod text;
pub mod types;
