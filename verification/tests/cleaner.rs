use rsname::cleaner::NameCleaner;

#[test]
fn test_rsname_full_logic() {
    let cleaner = NameCleaner::new();

    assert_eq!(
        cleaner.clean("Entrepreneurs [HDTV 720p][Cap.110].mkv"),
        "Entrepreneurs - S01E10.mkv"
    );

    assert_eq!(
        cleaner.clean("The.Simpsons.3x12.avi"),
        "The Simpsons - S03E12.avi"
    );

    assert_eq!(
        cleaner.clean("Pulp_Fiction_1994_720p_Bluray.mp4"),
        "Pulp Fiction (1994).mp4"
    );

    assert_eq!(
        cleaner.clean("2012.Movie.2009.1080p.mkv"),
        "2012 Movie (2009).mkv"
    );

    assert_eq!(
        cleaner.clean("Chernobyl Cap 103 1080p.mkv"),
        "Chernobyl - S01E03.mkv"
    );
}

#[test]
fn test_rsname_diverse_battery() {
    let cleaner = NameCleaner::new();

    assert_eq!(
        cleaner.clean("Blade.Runner.2049.2017.1080p.mkv"),
        "Blade Runner 2049 (2017).mkv"
    );

    assert_eq!(
        cleaner.clean("Better.Call.Saul.Capitulo.215.720p.h264.mp4"),
        "Better Call Saul - S02E15.mp4"
    );

    assert_eq!(
        cleaner.clean("The_Last_of_Us.S01E03.Long.Long.Time.1080p.mkv"),
        "The Last Of Us - S01E03.mkv"
    );

    assert_eq!(cleaner.clean("Cosmos Ep 01 [Bluray].mkv"), "Cosmos - S01E01.mkv");

    assert_eq!(cleaner.clean("Casablanca.Bluray.Rip.x264.mkv"), "Casablanca.mkv");

    assert_eq!(cleaner.clean("Succession.2x01.HDTV.mkv"), "Succession - S02E01.mkv");

    assert_eq!(
        cleaner.clean("[SubsCastellano] One Piece Cap 1045.mkv"),
        "One Piece - S10E45.mkv"
    );

    assert_eq!(
        cleaner.clean("www.descargaslocas.com_Avatar.2.2022.English.x264.mkv"),
        "Www Descargaslocas Com Avatar 2 (2022).mkv"
    );
}
