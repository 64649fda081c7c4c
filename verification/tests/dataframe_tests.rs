use dataframe::{DataFrame, Error, Val};

fn df() -> DataFrame {
    let csv = "name,nationality,xg,goals
Lionel Messi,Argentine,66.66,66
C. Ronaldo,Portugal,-0.69,3
Darwin Nunez,Uruguay,69.69,6969
M. Balotelli,Italy,8.88,888
";
    DataFrame::read_str(csv.to_string()).unwrap()
}

#[test]
fn col() {
    let df = df();
    let headers = df.headers().clone();

    headers.iter().for_each(|header| {
        let col = df.col(header);
        assert!(col.is_some());
    });
}

#[test]
fn row() {
    let df = df();
    let headers = df.headers();
    let row_3 = df.row(3usize);
    let row_4 = df.row(4usize);

    let pos_of_xg = headers.iter().position(|h| h == "xg");
    assert!(pos_of_xg.is_some());

    assert!(row_3.is_some_and(|n| {
        n.iter().find(|(h, _)| h == "xg").is_some_and(|(_, val)| val.is_float() && !val.is_int())
    }));
    assert!(row_4.is_none());
}

#[test]
fn modify_col_dtype() -> Result<(), Error> {
    let mut df = df();

    df.loc("goals", |val| {
        if let Val::Int64(num) = val {
            Val::Usize(num as usize)
        } else {
            val
        }
    })?;

    df.col("goals").inspect(|values| {
        values.iter().for_each(|v| {
            assert!(v.is_usize());
        });
    });

    Ok(())
}

#[test]
fn loc() -> Result<(), Error> {
    let mut df = df();
    let headers = df.headers().iter().map(ToString::to_string).collect::<Vec<_>>();

    headers.iter().try_for_each(|header| {
        df.loc(header, |val| match val {
            Val::String(s) => Val::String(s + " modify"),
            Val::Int64(num) => Val::Int64(-num),
            Val::Float64(num) => {
                let f: f64 = num.parse().unwrap();
                Val::Float64(format!("{}", f + 6.9))
            },
            other => other,
        })?;

        Ok::<(), Error>(())
    })?;

    headers.iter().for_each(|header| {
        df.col(header).map(|col| {
            col.iter().for_each(|val| {
                match val {
                    Val::String(s) => assert!(s.contains("modify")),
                    Val::Int64(num) => assert!(num.is_negative()),
                    Val::Float64(num) => {
                        let f: f64 = num.parse().unwrap();
                        assert!(f.signum() == 1.0);
                    },
                    _ => (),
                }
            });
        });
    });

    Ok(())
}

#[test]
fn round_trip_headers_find_full_columns() {
    let df = df();
    let height = df.height_count();
    assert_eq!(height, 4);
    for header in df.headers().clone() {
        let col = df.col(&header).expect("every header of the first line finds its column");
        assert_eq!(col.len(), height);
    }
}

#[test]
fn row_bounds() {
    let df = df();
    for idx in 0..4usize {
        let row = df.row(idx).expect("rows below the height are present");
        assert_eq!(row.len(), df.width_count());
    }
    assert!(df.row(4).is_none());
    assert!(df.row(1000).is_none());
}

#[test]
fn mutation_is_visible_through_col() -> Result<(), Error> {
    let mut df = df();
    df.loc("xg", |val| match val {
        Val::Float64(num) => {
            let f: f64 = num.parse().unwrap();
            Val::Float64(format!("{}", f + 6.9))
        },
        other => other,
    })?;
    let col = df.col("xg").unwrap();
    let expected = [73.56f64, 6.21, 76.59, 15.78];
    assert_eq!(col.len(), expected.len());
    for (v, want) in col.iter().zip(expected.iter()) {
        match v {
            Val::Float64(t) => {
                let f: f64 = t.parse().unwrap();
                assert!((f - want).abs() < 1e-9);
            },
            _ => panic!("xg stays a float column"),
        }
    }
    Ok(())
}

#[test]
fn unknown_column_mutation_fails_and_changes_nothing() {
    let mut df = df();
    let before: Vec<Vec<Val>> =
        df.headers().clone().iter().map(|h| df.col(h).unwrap()).collect();
    let r = df.loc("nonexistent", |val| val);
    match r {
        Err(Error::HeaderNotFound(h)) => assert_eq!(h, "nonexistent"),
        _ => panic!("a write to an unknown header is refused"),
    }
    let after: Vec<Vec<Val>> =
        df.headers().clone().iter().map(|h| df.col(h).unwrap()).collect();
    assert_eq!(before, after);
}

#[test]
fn ragged_input_is_refused() {
    let r = DataFrame::read_str("a,b\n1,2,3\n".to_string());
    match r {
        Err(Error::Other(m)) => assert_eq!(m, "lines differ in cell count"),
        _ => panic!("ragged lines are refused whole"),
    }
    let r2 = DataFrame::read_str(String::new());
    match r2 {
        Err(Error::Other(m)) => assert_eq!(m, "input text holds no lines"),
        _ => panic!("empty input holds no header line"),
    }
}

#[test]
fn render_draws_a_bordered_grid() {
    let df = DataFrame::read_str("a,b\n1,x\n".to_string()).unwrap();
    let text = df.render();
    let expected = "+-----+-------+\n| a | b   |\n+-----+-------+\n| 1 | \"x\" |\n+-----+-------+\n";
    assert_eq!(text, expected);
}

#[test]
fn printh_borders_matches_widths() {
    let lens: Vec<usize> = vec![1, 2];
    let border = dataframe::render::printh_borders(&lens);
    assert_eq!(border, "+-----+------+");
    let empty: Vec<usize> = Vec::new();
    assert_eq!(dataframe::render::printh_borders(&empty), "");
}
