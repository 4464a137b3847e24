//! Verified core of a collection of CSV and scheduling tools.
pub mod anomaly_laws;
pub mod archive_laws;
pub mod cell_laws;
pub mod cells;
pub mod cli;
pub mod command_laws;
pub mod csv_anomaly_detect;
pub mod csv_archive;
pub mod csv_key_diff;
pub mod csv_key_diff_extract;
pub mod csv_label_split;
pub mod csv_plot;
pub mod csv_pseudo_diff;
pub mod csv_text;
pub mod diff_laws;
pub mod extract_laws;
pub mod heading_laws;
pub mod key_laws;
pub mod list_laws;
pub mod literals;
pub mod monitor_laws;
pub mod ordering;
pub mod plan_laws;
pub mod plot_laws;
pub mod plot_states;
pub mod plot_view;
pub mod points;
pub mod pseudo_diff_laws;
pub mod report_laws;
pub mod schedule_laws;
pub mod schedule_model;
pub mod schedule_search;
pub mod series_laws;
pub mod split_laws;
pub mod state_laws;
pub mod system_monitor;
pub mod task_laws;
pub mod task_schedule;
pub mod text;
pub mod text_laws;
pub mod timestamps;
pub mod view_laws;
pub mod word_laws;
